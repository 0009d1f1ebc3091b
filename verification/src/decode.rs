use vstd::prelude::*;

use crate::error::DecodeError;
use crate::parse::parse;
use crate::parse::spec_parse;
use crate::verify::spec_verify;
use crate::verify::verify;
use crate::HQX;

verus! {

/// Marker byte that introduces a run-length sequence in the decoded stream.
pub const RLE_MARKER_BYTE: u8 = 0x90;

/// Sentinel byte skipped wherever it appears in the encoded payload.
pub const EOF: u8 = 0xFF;

/// CR, LF and the sentinel are formatting: they are skipped during decoding
/// and never advance the unpacker state.
pub open spec fn is_skipped(b: u8) -> bool {
    b == 13 || b == 10 || b == 0xFF
}

/// The 6-bit value of an alphabet character, or 64 for a byte outside the
/// 64-character alphabet.
pub open spec fn spec_decode6(b: u8) -> u8 {
    if 33 <= b && b <= 45 {
        (b - 33) as u8
    } else if 48 <= b && b <= 54 {
        (b - 35) as u8
    } else if 56 <= b && b <= 57 {
        (b - 36) as u8
    } else if 64 <= b && b <= 78 {
        (b - 42) as u8
    } else if 80 <= b && b <= 86 {
        (b - 43) as u8
    } else if 88 <= b && b <= 91 {
        (b - 44) as u8
    } else if 96 <= b && b <= 102 {
        (b - 48) as u8
    } else if 104 <= b && b <= 109 {
        (b - 49) as u8
    } else if 112 <= b && b <= 114 {
        (b - 51) as u8
    } else {
        64
    }
}

/// The byte belongs to the 64-character alphabet.
pub open spec fn is_alpha(b: u8) -> bool {
    spec_decode6(b) < 64
}

/// Inverse lookup from an alphabet character to its 6-bit value; any byte
/// outside the alphabet yields 64.
pub fn decode6(b: u8) -> (r: u8)
    ensures
        r == spec_decode6(b),
{
    if 33 <= b && b <= 45 {
        b - 33
    } else if 48 <= b && b <= 54 {
        b - 35
    } else if 56 <= b && b <= 57 {
        b - 36
    } else if 64 <= b && b <= 78 {
        b - 42
    } else if 80 <= b && b <= 86 {
        b - 43
    } else if 88 <= b && b <= 91 {
        b - 44
    } else if 96 <= b && b <= 102 {
        b - 48
    } else if 104 <= b && b <= 109 {
        b - 49
    } else if 112 <= b && b <= 114 {
        b - 51
    } else {
        64
    }
}

/// Alphabet bijection: decoding the character of any 6-bit value returns the
/// value; the character always lies in the alphabet and is never one of the
/// skipped formatting bytes.
pub proof fn lemma_alphabet_bijection(v: u8)
    requires
        v < 64,
    ensures
        spec_decode6(crate::encode::spec_encode6(v)) == v,
        is_alpha(crate::encode::spec_encode6(v)),
        !is_skipped(crate::encode::spec_encode6(v)),
{
}

/// The 6-bit symbols of an encoded payload: formatting bytes dropped, each
/// remaining byte sent through the inverse alphabet lookup.
pub open spec fn spec_symbols(s: Seq<u8>) -> Seq<u8>
    decreases s.len(),
{
    if s.len() == 0 {
        Seq::empty()
    } else if is_skipped(s[0]) {
        spec_symbols(s.drop_first())
    } else {
        seq![spec_decode6(s[0])] + spec_symbols(s.drop_first())
    }
}

/// Every non-formatting byte of the payload belongs to the alphabet.
pub open spec fn symbols_ok(s: Seq<u8>) -> bool
    decreases s.len(),
{
    if s.len() == 0 {
        true
    } else if is_skipped(s[0]) {
        symbols_ok(s.drop_first())
    } else {
        is_alpha(s[0]) && symbols_ok(s.drop_first())
    }
}

/// Formatting bytes are transparent: inserting CR, LF or the sentinel at any
/// position of a payload changes neither its symbol stream nor its validity,
/// so they never advance the unpacker state.
pub proof fn lemma_skipped_bytes_are_transparent(s: Seq<u8>, i: int, b: u8)
    requires
        0 <= i <= s.len(),
        is_skipped(b),
    ensures
        spec_symbols(s.insert(i, b)) == spec_symbols(s),
        symbols_ok(s.insert(i, b)) == symbols_ok(s),
    decreases i,
{
    let t = s.insert(i, b);
    if i == 0 {
        assert(t.drop_first() =~= s);
    } else {
        assert(t[0] == s[0]);
        assert(t.drop_first() =~= s.drop_first().insert(i - 1, b));
        lemma_skipped_bytes_are_transparent(s.drop_first(), i - 1, b);
        assert(s.len() > 0);
    }
}

fn to_symbols(input: &[u8]) -> (r: Result<Vec<u8>, DecodeError>)
    ensures
        r is Ok <==> symbols_ok(input@),
        r matches Ok(v) ==> v@ == spec_symbols(input@),
        r is Err ==> r == Err::<Vec<u8>, DecodeError>(DecodeError::BadFormat),
{
    let mut out: Vec<u8> = Vec::new();
    let mut i: usize = 0;
    proof {
        assert(input@.skip(0) =~= input@);
        assert(Seq::<u8>::empty() + spec_symbols(input@) =~= spec_symbols(input@));
    }
    while i < input.len()
        invariant
            i <= input@.len(),
            symbols_ok(input@) <==> symbols_ok(input@.skip(i as int)),
            out@ + spec_symbols(input@.skip(i as int)) == spec_symbols(input@),
        decreases input@.len() - i,
    {
        let b = input[i];
        proof {
            assert(input@.skip(i as int).drop_first() =~= input@.skip(i + 1));
            assert(input@.skip(i as int)[0] == input@[i as int]);
        }
        if b == 13 || b == 10 || b == EOF {
            // formatting byte: skipped
        } else {
            let d = decode6(b);
            if d >= 64 {
                proof {
                    assert(!symbols_ok(input@.skip(i as int)));
                }
                return Err(DecodeError::BadFormat);
            }
            let ghost prev = out@;
            out.push(d);
            proof {
                assert(out@ + spec_symbols(input@.skip(i + 1)) =~= prev + spec_symbols(
                    input@.skip(i as int),
                ));
            }
        }
        i = i + 1;
    }
    proof {
        assert(input@.skip(input@.len() as int) =~= Seq::<u8>::empty());
        assert(out@ =~= spec_symbols(input@));
    }
    Ok(out)
}

/// The bytes produced by the cyclic 6-bit-to-8-bit unpacker run on the
/// symbols `s`, starting in state `st` with carried bits `partial`.
pub open spec fn spec_unpack(s: Seq<u8>, st: u8, partial: u8) -> Seq<u8>
    decreases s.len(),
{
    if s.len() == 0 {
        Seq::empty()
    } else {
        let sym = s[0];
        if st == 0 {
            spec_unpack(s.drop_first(), 1, sym << 2)
        } else if st == 1 {
            seq![partial | (sym >> 4)] + spec_unpack(s.drop_first(), 2, (sym & 0x0F) << 4)
        } else if st == 2 {
            seq![partial | (sym >> 2)] + spec_unpack(s.drop_first(), 3, (sym & 0x03) << 6)
        } else {
            seq![partial | sym] + spec_unpack(s.drop_first(), 0, 0)
        }
    }
}

fn unpack(syms: &Vec<u8>) -> (r: Vec<u8>)
    ensures
        r@ == spec_unpack(syms@, 0, 0),
{
    let mut out: Vec<u8> = Vec::new();
    let mut st: u8 = 0;
    let mut partial: u8 = 0;
    let mut i: usize = 0;
    proof {
        assert(syms@.skip(0) =~= syms@);
        assert(Seq::<u8>::empty() + spec_unpack(syms@, 0, 0) =~= spec_unpack(syms@, 0, 0));
    }
    while i < syms.len()
        invariant
            i <= syms@.len(),
            st < 4,
            out@ + spec_unpack(syms@.skip(i as int), st, partial) == spec_unpack(syms@, 0, 0),
        decreases syms@.len() - i,
    {
        let sym = syms[i];
        proof {
            assert(syms@.skip(i as int).drop_first() =~= syms@.skip(i + 1));
            assert(syms@.skip(i as int)[0] == syms@[i as int]);
        }
        let ghost prev = out@;
        let ghost old_st = st;
        let ghost old_partial = partial;
        if st == 0 {
            partial = sym << 2;
            st = 1;
        } else if st == 1 {
            out.push(partial | (sym >> 4));
            partial = (sym & 0x0F) << 4;
            st = 2;
        } else if st == 2 {
            out.push(partial | (sym >> 2));
            partial = (sym & 0x03) << 6;
            st = 3;
        } else {
            out.push(partial | sym);
            partial = 0;
            st = 0;
        }
        proof {
            assert(out@ + spec_unpack(syms@.skip(i + 1), st, partial) =~= prev + spec_unpack(
                syms@.skip(i as int),
                old_st,
                old_partial,
            ));
        }
        i = i + 1;
    }
    proof {
        assert(syms@.skip(syms@.len() as int) =~= Seq::<u8>::empty());
        assert(out@ =~= spec_unpack(syms@, 0, 0));
    }
    out
}

/// Run-length expansion of the unpacked byte stream `s`, a one-byte-lookback
/// filter: `0x90` introduces a run, a following count of zero escapes the
/// marker itself, and a count `n >= 1` emits `n - 1` further copies of the
/// byte before the marker.
pub open spec fn spec_rle(s: Seq<u8>, has_rle: bool, last: u8) -> Seq<u8>
    decreases s.len(),
{
    if s.len() == 0 {
        Seq::empty()
    } else {
        let b = s[0];
        if !has_rle {
            if b == 0x90 {
                spec_rle(s.drop_first(), true, last)
            } else {
                seq![b] + spec_rle(s.drop_first(), false, b)
            }
        } else {
            if b == 0 {
                seq![0x90u8] + spec_rle(s.drop_first(), false, 0x90)
            } else {
                Seq::new((b - 1) as nat, |k: int| last) + spec_rle(s.drop_first(), false, last)
            }
        }
    }
}

/// The stream does not end in the middle of a run: a trailing lone `0x90`
/// marker is malformed.
pub open spec fn spec_rle_ok(s: Seq<u8>, has_rle: bool) -> bool
    decreases s.len(),
{
    if s.len() == 0 {
        !has_rle
    } else if !has_rle {
        spec_rle_ok(s.drop_first(), s[0] == 0x90)
    } else {
        spec_rle_ok(s.drop_first(), false)
    }
}

/// Expands the run-length encoding of the unpacked byte stream. A stream
/// that ends mid-run is rejected rather than silently truncated.
pub fn rle_expand(bytes: &Vec<u8>) -> (r: Result<Vec<u8>, DecodeError>)
    ensures
        r is Ok <==> spec_rle_ok(bytes@, false),
        r matches Ok(v) ==> v@ == spec_rle(bytes@, false, 0),
        r is Err ==> r == Err::<Vec<u8>, DecodeError>(DecodeError::BadRunLengthEncoding),
{
    let mut out: Vec<u8> = Vec::new();
    let mut has_rle = false;
    let mut last: u8 = 0;
    let mut i: usize = 0;
    proof {
        assert(bytes@.skip(0) =~= bytes@);
        assert(Seq::<u8>::empty() + spec_rle(bytes@, false, 0) =~= spec_rle(bytes@, false, 0));
    }
    while i < bytes.len()
        invariant
            i <= bytes@.len(),
            out@ + spec_rle(bytes@.skip(i as int), has_rle, last) == spec_rle(bytes@, false, 0),
            spec_rle_ok(bytes@, false) == spec_rle_ok(bytes@.skip(i as int), has_rle),
        decreases bytes@.len() - i,
    {
        let b = bytes[i];
        proof {
            assert(bytes@.skip(i as int).drop_first() =~= bytes@.skip(i + 1));
            assert(bytes@.skip(i as int)[0] == bytes@[i as int]);
        }
        let ghost prev = out@;
        let ghost oh = has_rle;
        let ghost ol = last;
        if !has_rle {
            if b == RLE_MARKER_BYTE {
                has_rle = true;
            } else {
                last = b;
                out.push(b);
            }
        } else {
            if b == 0x00 {
                last = RLE_MARKER_BYTE;
                out.push(RLE_MARKER_BYTE);
            } else {
                let reps = (b - 1) as usize;
                let mut pushed: usize = 0;
                while pushed < reps
                    invariant
                        pushed <= reps,
                        last == ol,
                        out@ == prev + Seq::new(pushed as nat, |k: int| ol),
                    decreases reps - pushed,
                {
                    out.push(last);
                    proof {
                        assert(prev + Seq::new((pushed + 1) as nat, |k: int| ol) =~= (prev
                            + Seq::new(pushed as nat, |k: int| ol)).push(ol));
                    }
                    pushed = pushed + 1;
                }
            }
            has_rle = false;
        }
        proof {
            assert(out@ + spec_rle(bytes@.skip(i + 1), has_rle, last) =~= prev + spec_rle(
                bytes@.skip(i as int),
                oh,
                ol,
            ));
        }
        i = i + 1;
    }
    proof {
        assert(bytes@.skip(bytes@.len() as int) =~= Seq::<u8>::empty());
    }
    if has_rle {
        return Err(DecodeError::BadRunLengthEncoding);
    }
    proof {
        assert(out@ =~= spec_rle(bytes@, false, 0));
    }
    Ok(out)
}

/// The raw bytes encoded by a payload: its symbols run through the unpacker.
pub open spec fn spec_unpacked(s: Seq<u8>) -> Seq<u8> {
    spec_unpack(spec_symbols(s), 0, 0)
}

/// The decoded container bytes of a payload: unpacked, then RLE-expanded.
pub open spec fn spec_decoded(s: Seq<u8>) -> Seq<u8> {
    spec_rle(spec_unpacked(s), false, 0)
}

/// The payload decodes cleanly: alphabet-valid and not ending mid-run.
pub open spec fn decode_ok(s: Seq<u8>) -> bool {
    symbols_ok(s) && spec_rle_ok(spec_unpacked(s), false)
}

/// Decodes an encoded payload (with embedded newlines) into the raw
/// container bytes: alphabet lookup, 6-to-8-bit unpacking, RLE expansion.
pub fn decode(encoded_bin_with_newlines: &[u8]) -> (r: Result<HQX, DecodeError>)
    ensures
        r is Ok <==> decode_ok(encoded_bin_with_newlines@),
        r matches Ok(h) ==> h.vec@ == spec_decoded(encoded_bin_with_newlines@),
        !symbols_ok(encoded_bin_with_newlines@) ==> r == Err::<HQX, DecodeError>(
            DecodeError::BadFormat,
        ),
        symbols_ok(encoded_bin_with_newlines@) && !spec_rle_ok(
            spec_unpacked(encoded_bin_with_newlines@),
            false,
        ) ==> r == Err::<HQX, DecodeError>(DecodeError::BadRunLengthEncoding),
{
    let syms = match to_symbols(encoded_bin_with_newlines) {
        Ok(v) => v,
        Err(e) => {
            return Err(e);
        },
    };
    let unpacked = unpack(&syms);
    let out = match rle_expand(&unpacked) {
        Ok(v) => v,
        Err(e) => {
            return Err(e);
        },
    };
    Ok(HQX::new(out))
}

/// The outcome of a full decode of a BinHex stream: locate the payload,
/// decode it, and (when asked) verify the CRCs of the result.
pub open spec fn spec_hexbin(s: Seq<u8>, should_verify: bool) -> Result<Seq<u8>, DecodeError> {
    match spec_parse(s) {
        None => Err(DecodeError::BadFormat),
        Some(p) => {
            if !symbols_ok(p) {
                Err(DecodeError::BadFormat)
            } else if !spec_rle_ok(spec_unpacked(p), false) {
                Err(DecodeError::BadRunLengthEncoding)
            } else if should_verify {
                match spec_verify(spec_decoded(p)) {
                    Err(e) => Err(e),
                    Ok(_) => Ok(spec_decoded(p)),
                }
            } else {
                Ok(spec_decoded(p))
            }
        },
    }
}

/// Decodes a full BinHex stream into a container, optionally verifying the
/// header and fork CRCs.
pub fn hexbin(i: &[u8], should_verify: bool) -> (r: Result<HQX, DecodeError>)
    ensures
        r matches Ok(h) ==> spec_hexbin(i@, should_verify) == Ok::<Seq<u8>, DecodeError>(h.vec@),
        r matches Err(e) ==> spec_hexbin(i@, should_verify) == Err::<Seq<u8>, DecodeError>(e),
{
    let payload = match parse(i) {
        Ok(v) => v,
        Err(e) => {
            return Err(e);
        },
    };
    let hqx = match decode(payload.as_slice()) {
        Ok(h) => h,
        Err(e) => {
            return Err(e);
        },
    };
    if should_verify {
        match verify(&hqx) {
            Ok(_) => {},
            Err(e) => {
                return Err(e);
            },
        }
    }
    Ok(hqx)
}

} // verus!
