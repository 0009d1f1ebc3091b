use vstd::prelude::*;

use crate::copy_range;
use crate::data_crc_pos;
use crate::data_crc_of;
use crate::data_start;
use crate::header_ok;
use crate::name_len_of;
use crate::resource_crc_pos;
use crate::resource_start;
use crate::data_len_of;
use crate::data_of;
use crate::error::CRCVerificationError;
use crate::error::DecodeError;
use crate::header_crc_of;
use crate::header_pre_of;
use crate::parse_ok;
use crate::resource_crc_of;
use crate::resource_len_of;
use crate::resource_of;
use crate::HQX;

verus! {

/// CRC polynomial of the BinHex variant of CRC-16/XMODEM.
pub const CRC_POLY: u16 = 0x1021;

/// One bit step of the bit-serial CRC: shift the next input bit into the
/// register and fold the polynomial in when the old top bit was set.
pub open spec fn crc_bit_step(crc: u16, bit: u16) -> u16 {
    if crc & 0x8000 != 0 {
        ((crc << 1) | bit) ^ 0x1021
    } else {
        (crc << 1) | bit
    }
}

/// `n` remaining bit steps of one input byte, MSB first.
pub open spec fn crc_byte_rec(byte: u8, crc: u16, n: nat) -> u16
    decreases n,
{
    if n == 0 {
        crc
    } else {
        crc_byte_rec(byte << 1, crc_bit_step(crc, (byte >> 7) as u16), (n - 1) as nat)
    }
}

/// The CRC register after mixing in one whole input byte.
pub open spec fn spec_calc_crc(byte: u8, crc: u16) -> u16 {
    crc_byte_rec(byte, crc, 8)
}

/// The CRC register after mixing a byte sequence into starting state `crc`.
pub open spec fn crc16_from(s: Seq<u8>, crc: u16) -> u16
    decreases s.len(),
{
    if s.len() == 0 {
        crc
    } else {
        crc16_from(s.drop_first(), spec_calc_crc(s[0], crc))
    }
}

/// The checksum of a byte sequence: polynomial 0x1021, initial value 0,
/// MSB first, no reflection, no final XOR.
pub open spec fn crc16(s: Seq<u8>) -> u16 {
    crc16_from(s, 0)
}

/// The checksum of a sequence followed by two zero flush bytes, as stored in
/// the header and fork CRC fields.
pub open spec fn crc_flushed(s: Seq<u8>) -> u16 {
    spec_calc_crc(0, spec_calc_crc(0, crc16(s)))
}

/// Mixing in a concatenation is mixing in the parts one after the other.
pub proof fn lemma_crc16_from_append(a: Seq<u8>, b: Seq<u8>, crc: u16)
    ensures
        crc16_from(a + b, crc) == crc16_from(b, crc16_from(a, crc)),
    decreases a.len(),
{
    if a.len() == 0 {
        assert(a + b =~= b);
    } else {
        assert((a + b).drop_first() =~= a.drop_first() + b);
        lemma_crc16_from_append(a.drop_first(), b, spec_calc_crc(a[0], crc));
    }
}

/// The flushed checksum equals the plain checksum of the sequence with two
/// zero bytes appended.
pub proof fn lemma_crc_flushed_is_appended_zeros(s: Seq<u8>)
    ensures
        crc_flushed(s) == crc16(s + seq![0u8, 0u8]),
{
    lemma_crc16_from_append(s, seq![0u8, 0u8], 0);
    let c = crc16(s);
    reveal_with_fuel(crc16_from, 3);
    let two = seq![0u8, 0u8];
    let one = seq![0u8];
    assert(two.drop_first() =~= one);
    assert(one.drop_first() =~= Seq::<u8>::empty());
    assert(two[0] == 0u8 && one[0] == 0u8);
    assert(crc16_from(two, c) == spec_calc_crc(0, spec_calc_crc(0, c)));
}

fn calc_crc(byte: u8, crc: u16) -> (r: u16)
    ensures
        r == spec_calc_crc(byte, crc),
{
    let mut b = byte;
    let mut c = crc;
    let mut i: usize = 0;
    while i < 8
        invariant
            i <= 8,
            crc_byte_rec(b, c, (8 - i) as nat) == spec_calc_crc(byte, crc),
        decreases 8 - i,
    {
        let bit = (b >> 7) as u16;
        let shifted = (c << 1) | bit;
        if c & 0x8000 != 0 {
            c = shifted ^ CRC_POLY;
        } else {
            c = shifted;
        }
        b = b << 1;
        i = i + 1;
    }
    c
}

/// The flushed checksum of `data[start..end]`, as stored in a CRC field.
pub(crate) fn crc_flushed_range(data: &[u8], start: usize, end: usize) -> (r: u16)
    requires
        start <= end <= data@.len(),
    ensures
        r == crc_flushed(data@.subrange(start as int, end as int)),
{
    let c = crc_range_from(data, start, end, 0);
    calc_crc(0x00, calc_crc(0x00, c))
}

/// The checksum used to fill and to verify the CRC fields of a container.
pub fn compute_crc(data: &[u8]) -> (r: u16)
    ensures
        r == crc16(data@),
{
    let r = crc_range_from(data, 0, data.len(), 0);
    proof {
        assert(data@.subrange(0, data@.len() as int) =~= data@);
    }
    r
}

/// CRC of `data[start..end]` mixed into starting state `crc`.
pub fn crc_range_from(data: &[u8], start: usize, end: usize, crc: u16) -> (r: u16)
    requires
        start <= end <= data@.len(),
    ensures
        r == crc16_from(data@.subrange(start as int, end as int), crc),
{
    let mut c = crc;
    let mut i: usize = start;
    while i < end
        invariant
            start <= i <= end <= data@.len(),
            crc16_from(data@.subrange(i as int, end as int), c) == crc16_from(
                data@.subrange(start as int, end as int),
                crc,
            ),
        decreases end - i,
    {
        proof {
            let whole = data@.subrange(i as int, end as int);
            assert(whole.drop_first() =~= data@.subrange(i + 1, end as int));
            assert(whole[0] == data@[i as int]);
        }
        c = calc_crc(data[i], c);
        i = i + 1;
    }
    proof {
        assert(data@.subrange(end as int, end as int) =~= Seq::<u8>::empty());
    }
    c
}

fn verify_crc(bytes: &[u8], expected_crc: u16, err: CRCVerificationError) -> (r: Result<
    (),
    DecodeError,
>)
    ensures
        crc_flushed(bytes@) == expected_crc ==> r == Ok::<(), DecodeError>(()),
        crc_flushed(bytes@) != expected_crc ==> r == Err::<(), DecodeError>(
            DecodeError::CRCVerificationError(err),
        ),
{
    let mut crc = compute_crc(bytes);
    crc = calc_crc(0x00, crc);
    crc = calc_crc(0x00, crc);

    if crc != expected_crc {
        Err(DecodeError::CRCVerificationError(err))
    } else {
        Ok(())
    }
}

proof fn lemma_calc_crc_state_injective(b: u8, c1: u16, c2: u16)
    by (bit_vector)
    requires
        spec_calc_crc(b, c1) == spec_calc_crc(b, c2),
    ensures
        c1 == c2,
{
}

proof fn lemma_calc_crc_byte_injective(b1: u8, b2: u8, c: u16)
    by (bit_vector)
    requires
        b1 != b2,
    ensures
        spec_calc_crc(b1, c) != spec_calc_crc(b2, c),
{
}

proof fn lemma_calc_crc_distinct_states(b: u8, c1: u16, c2: u16)
    requires
        c1 != c2,
    ensures
        spec_calc_crc(b, c1) != spec_calc_crc(b, c2),
{
    if spec_calc_crc(b, c1) == spec_calc_crc(b, c2) {
        lemma_calc_crc_state_injective(b, c1, c2);
    }
}

proof fn lemma_crc16_from_distinct_states(s: Seq<u8>, c1: u16, c2: u16)
    requires
        c1 != c2,
    ensures
        crc16_from(s, c1) != crc16_from(s, c2),
    decreases s.len(),
{
    if s.len() > 0 {
        lemma_calc_crc_distinct_states(s[0], c1, c2);
        lemma_crc16_from_distinct_states(
            s.drop_first(),
            spec_calc_crc(s[0], c1),
            spec_calc_crc(s[0], c2),
        );
    }
}

/// Changing one byte of a sequence always changes its checksum, flushed or
/// not: the CRC register transition is invertible, so a difference injected
/// at any position survives to the end.
pub proof fn lemma_crc16_detects_byte_change(s: Seq<u8>, t: Seq<u8>, i: int)
    requires
        s.len() == t.len(),
        0 <= i < s.len(),
        s[i] != t[i],
        forall|j: int| 0 <= j < s.len() && j != i ==> s[j] == t[j],
    ensures
        crc16(s) != crc16(t),
        crc_flushed(s) != crc_flushed(t),
{
    assert(s.take(i) + s.skip(i) =~= s);
    assert(t.take(i) + t.skip(i) =~= t);
    lemma_crc16_from_append(s.take(i), s.skip(i), 0);
    lemma_crc16_from_append(t.take(i), t.skip(i), 0);
    assert(s.take(i) =~= t.take(i));
    let c = crc16_from(s.take(i), 0);
    assert(s.skip(i).drop_first() =~= s.skip(i + 1));
    assert(t.skip(i).drop_first() =~= t.skip(i + 1));
    assert(s.skip(i)[0] == s[i]);
    assert(t.skip(i)[0] == t[i]);
    lemma_calc_crc_byte_injective(s[i], t[i], c);
    assert(s.skip(i + 1) =~= t.skip(i + 1));
    lemma_crc16_from_distinct_states(
        s.skip(i + 1),
        spec_calc_crc(s[i], c),
        spec_calc_crc(t[i], c),
    );
    assert(crc16(s) != crc16(t));
    lemma_calc_crc_distinct_states(0, crc16(s), crc16(t));
    lemma_calc_crc_distinct_states(0, spec_calc_crc(0, crc16(s)), spec_calc_crc(0, crc16(t)));
}

/// The checksum is a pure function of the byte sequence: identical inputs
/// always give identical checksums, and the empty sequence checksums to zero.
pub proof fn lemma_crc16_deterministic(a: Seq<u8>, b: Seq<u8>)
    requires
        a == b,
    ensures
        crc16(a) == crc16(b),
        crc16(Seq::<u8>::empty()) == 0,
{
}

/// The outcome of CRC verification of a container buffer: header first, then
/// data fork, then resource fork, stopping at the first mismatch.
pub open spec fn spec_verify(s: Seq<u8>) -> Result<(), DecodeError> {
    if !parse_ok(s) {
        Err(DecodeError::BadFormat)
    } else if crc_flushed(header_pre_of(s)) != header_crc_of(s) {
        Err(DecodeError::CRCVerificationError(CRCVerificationError::Header))
    } else if data_len_of(s) > 0 && crc_flushed(data_of(s)) != data_crc_of(s) {
        Err(DecodeError::CRCVerificationError(CRCVerificationError::Data))
    } else if resource_len_of(s) > 0 && crc_flushed(resource_of(s)) != resource_crc_of(s) {
        Err(DecodeError::CRCVerificationError(CRCVerificationError::Resource))
    } else {
        Ok(())
    }
}

/// Flipping any single bit inside a fork's payload of a container whose
/// checks all pass makes verification fail, and fail with exactly that
/// fork's error: `Data` for a bit in the data fork, `Resource` for one in
/// the resource fork.
#[verifier::rlimit(100)]
pub proof fn lemma_fork_bit_flip_detected(s: Seq<u8>, t: Seq<u8>, i: int, k: u8)
    requires
        spec_verify(s) == Ok::<(), DecodeError>(()),
        s.len() == t.len(),
        0 <= i < s.len(),
        forall|j: int| 0 <= j < s.len() && j != i ==> s[j] == t[j],
        k < 8,
        t[i] == (s[i] ^ (1u8 << k)),
        (data_start(s) <= i < data_start(s) + data_len_of(s) as int) || (resource_start(s) <= i
            < resource_start(s) + resource_len_of(s) as int),
    ensures
        data_start(s) <= i < data_start(s) + data_len_of(s) as int ==> spec_verify(t) == Err::<
            (),
            DecodeError,
        >(DecodeError::CRCVerificationError(CRCVerificationError::Data)),
        resource_start(s) <= i < resource_start(s) + resource_len_of(s) as int ==> spec_verify(t)
            == Err::<(), DecodeError>(
            DecodeError::CRCVerificationError(CRCVerificationError::Resource),
        ),
{
    assert(t[i] != s[i]) by {
        let x = s[i];
        assert(k < 8 ==> (x ^ (1u8 << k)) != x) by (bit_vector);
    }
    assert(parse_ok(s));
    let n = name_len_of(s);
    let ds = data_start(s);
    let dl = data_len_of(s) as int;
    let rs = resource_start(s);
    let rl = resource_len_of(s) as int;
    assert(ds == n + 22);
    assert(i >= n + 22);

    // the header region is untouched, so every header field parses alike
    assert(t[0] == s[0]);
    assert(name_len_of(t) == n);
    assert(t[1 + n] == s[1 + n]);
    assert(header_ok(t)) by {
        assert(forall|j: int| 1 <= j < 1 + n ==> t[j] == s[j]);
    }
    assert(data_len_of(t) == data_len_of(s));
    assert(resource_len_of(t) == resource_len_of(s));
    assert(header_crc_of(t) == header_crc_of(s));
    assert(data_start(t) == ds);
    assert(data_crc_pos(t) == data_crc_pos(s));
    assert(resource_start(t) == rs);
    assert(resource_crc_pos(t) == resource_crc_pos(s));
    assert(parse_ok(t));
    assert(header_pre_of(t) =~= header_pre_of(s));

    // the CRC fields themselves are untouched
    assert(i < data_crc_pos(s) || i >= rs);
    assert(data_crc_of(t) == data_crc_of(s));
    assert(i < resource_crc_pos(s));
    assert(resource_crc_of(t) == resource_crc_of(s));

    if ds <= i < ds + dl {
        assert(dl > 0);
        let ss = data_of(s);
        let tt = data_of(t);
        assert(ss.len() == tt.len() == dl);
        assert(tt[i - ds] != ss[i - ds]) by {
            assert(tt[i - ds] == t[i] && ss[i - ds] == s[i]);
        }
        assert forall|j: int| 0 <= j < ss.len() && j != i - ds implies ss[j] == tt[j] by {
            assert(ss[j] == s[ds + j] && tt[j] == t[ds + j]);
        }
        lemma_crc16_detects_byte_change(ss, tt, i - ds);
        assert(crc_flushed(data_of(s)) == data_crc_of(s));
        assert(crc_flushed(data_of(t)) != data_crc_of(t));
        assert(spec_verify(t) == Err::<(), DecodeError>(
            DecodeError::CRCVerificationError(CRCVerificationError::Data),
        ));
    } else {
        assert(rs <= i < rs + rl);
        assert(rl > 0);
        // the data fork is untouched, so its check still passes
        assert(data_of(t) =~= data_of(s));
        let ss = resource_of(s);
        let tt = resource_of(t);
        assert(ss.len() == tt.len() == rl);
        assert(tt[i - rs] != ss[i - rs]) by {
            assert(tt[i - rs] == t[i] && ss[i - rs] == s[i]);
        }
        assert forall|j: int| 0 <= j < ss.len() && j != i - rs implies ss[j] == tt[j] by {
            assert(ss[j] == s[rs + j] && tt[j] == t[rs + j]);
        }
        lemma_crc16_detects_byte_change(ss, tt, i - rs);
        assert(crc_flushed(resource_of(s)) == resource_crc_of(s));
        assert(crc_flushed(resource_of(t)) != resource_crc_of(t));
        assert(spec_verify(t) == Err::<(), DecodeError>(
            DecodeError::CRCVerificationError(CRCVerificationError::Resource),
        ));
    }
}

/// Checks the header CRC and, for each fork that is present, the fork CRC,
/// reporting the first section that fails.
pub fn verify(hqx: &HQX) -> (r: Result<(), DecodeError>)
    ensures
        r == spec_verify(hqx.vec@),
{
    let hqx_ref = match hqx.borrow() {
        Ok(h) => h,
        Err(e) => {
            return Err(e);
        },
    };
    let v = hqx.vec.as_slice();
    let n = hqx_ref.name_len as usize;
    let header_bytes = copy_range(v, 0, n + 20);
    proof {
        assert(header_bytes@ =~= header_pre_of(hqx.vec@));
    }
    match verify_crc(header_bytes.as_slice(), hqx_ref.hc, CRCVerificationError::Header) {
        Ok(_) => {},
        Err(e) => {
            return Err(e);
        },
    }
    match &hqx_ref.data_fork {
        Some(fork) => {
            match verify_crc(fork.data.as_slice(), fork.crc, CRCVerificationError::Data) {
                Ok(_) => {},
                Err(e) => {
                    return Err(e);
                },
            }
        },
        None => {},
    }
    match &hqx_ref.resource_fork {
        Some(fork) => {
            match verify_crc(fork.data.as_slice(), fork.crc, CRCVerificationError::Resource) {
                Ok(_) => {},
                Err(e) => {
                    return Err(e);
                },
            }
        },
        None => {},
    }
    Ok(())
}

} // verus!
