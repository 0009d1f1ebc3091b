use vstd::prelude::*;

use crate::author_of;
use crate::be16;
use crate::decode::decode_ok;
use crate::decode::lemma_alphabet_bijection;
use crate::decode::spec_decoded;
use crate::decode::spec_hexbin;
use crate::decode::spec_rle;
use crate::decode::spec_rle_ok;
use crate::decode::spec_symbols;
use crate::decode::spec_unpack;
use crate::decode::spec_unpacked;
use crate::decode::symbols_ok;
use crate::parse::find_byte;
use crate::parse::find_marker;
use crate::parse::is_marker_at;
use crate::parse::spec_parse;
use crate::be16_val;
use crate::be32;
use crate::be32_val;
use crate::data_crc_of;
use crate::data_len_of;
use crate::data_of;
use crate::error::DecodeError;
use crate::error::EncodeError;
use crate::file_type_of;
use crate::flags_of;
use crate::header_crc_of;
use crate::header_pre_of;
use crate::name_of;
use crate::parse::marker_prefix;
use crate::parse_ok;
use crate::resource_crc_of;
use crate::resource_len_of;
use crate::resource_of;
use crate::verify::crc_flushed;
use crate::verify::crc_flushed_range;
use crate::verify::spec_verify;
use crate::HQXConfig;
use crate::HQXRef;
use crate::HQX;

verus! {

/// The alphabet character of a 6-bit value 0..=63.
pub open spec fn spec_encode6(v: u8) -> u8 {
    if v <= 12 {
        (v + 33) as u8
    } else if v <= 19 {
        (v + 35) as u8
    } else if v <= 21 {
        (v + 36) as u8
    } else if v <= 36 {
        (v + 42) as u8
    } else if v <= 43 {
        (v + 43) as u8
    } else if v <= 47 {
        (v + 44) as u8
    } else if v <= 54 {
        (v + 48) as u8
    } else if v <= 60 {
        (v + 49) as u8
    } else if v <= 63 {
        (v + 51) as u8
    } else {
        0
    }
}

/// Table lookup from a 6-bit value to its printable alphabet character.
pub fn encode6(v: u8) -> (r: u8)
    ensures
        r == spec_encode6(v),
{
    if v <= 12 {
        v + 33
    } else if v <= 19 {
        v + 35
    } else if v <= 21 {
        v + 36
    } else if v <= 36 {
        v + 42
    } else if v <= 43 {
        v + 43
    } else if v <= 47 {
        v + 44
    } else if v <= 54 {
        v + 48
    } else if v <= 60 {
        v + 49
    } else if v <= 63 {
        v + 51
    } else {
        0
    }
}

/// The container byte stream with every run-length marker escaped: each
/// `0x90` becomes `0x90 0x00`, so that the decoder's RLE expansion maps the
/// stream back to the original bytes.
pub open spec fn spec_rle_escape(s: Seq<u8>) -> Seq<u8>
    decreases s.len(),
{
    if s.len() == 0 {
        Seq::empty()
    } else if s[0] == 0x90 {
        seq![0x90u8, 0u8] + spec_rle_escape(s.drop_first())
    } else {
        seq![s[0]] + spec_rle_escape(s.drop_first())
    }
}

/// The 6-bit symbols produced by the cyclic 8-bit-to-6-bit packer run on the
/// bytes `s`, starting in state `st` with carried bits `save`; when the
/// input ends mid-group the carried bits are flushed as one final symbol.
pub open spec fn spec_pack(s: Seq<u8>, st: u8, save: u8) -> Seq<u8>
    decreases s.len(),
{
    if s.len() == 0 {
        if st == 1 {
            seq![(save << 4) & 0x30]
        } else if st == 2 {
            seq![(save << 2) & 0x3C]
        } else {
            Seq::empty()
        }
    } else {
        let b = s[0];
        if st == 0 {
            seq![(b >> 2) & 0x3F] + spec_pack(s.drop_first(), 1, b & 0x03)
        } else if st == 1 {
            seq![((save << 4) & 0x30) | (b >> 4)] + spec_pack(s.drop_first(), 2, b & 0x0F)
        } else {
            seq![((save << 2) & 0x3C) | (b >> 6), b & 0x3F] + spec_pack(s.drop_first(), 0, 0)
        }
    }
}

/// The alphabet-encoded, line-wrapped text of the symbols `syms`, with `k`
/// characters already on the current line: a CR+LF pair follows every 64th
/// character.
pub open spec fn spec_lines(syms: Seq<u8>, k: int) -> Seq<u8>
    decreases syms.len(),
{
    if syms.len() == 0 {
        Seq::empty()
    } else {
        let c = spec_encode6(syms[0]);
        if k == 63 {
            seq![c, 13u8, 10u8] + spec_lines(syms.drop_first(), 0)
        } else {
            seq![c] + spec_lines(syms.drop_first(), k + 1)
        }
    }
}

/// The full marker line that opens a BinHex stream:
/// `"(This file must be converted with BinHex 4.0)\n\n"`.
pub open spec fn marker_full() -> Seq<u8> {
    marker_prefix() + seq![32u8, 52, 46, 48, 41, 10, 10]
}

/// The printable BinHex text of the container bytes `s`: the marker line, a
/// colon, the RLE-escaped, packed and line-wrapped payload, a closing colon
/// and CR+LF.
pub open spec fn spec_printable(s: Seq<u8>) -> Seq<u8> {
    marker_full() + seq![58u8] + spec_lines(spec_pack(spec_rle_escape(s), 0, 0), 0) + seq![
        58u8,
        13,
        10,
    ]
}

/// Number of whole 6-bit symbols that `len` bytes pack into, rounded down to
/// full 3-byte groups.
pub fn len_to_encoded_len(len: usize) -> (r: usize)
    requires
        (len as int) / 3 * 4 <= usize::MAX,
    ensures
        r == (len as int) / 3 * 4,
{
    (len / 3) * 4
}

fn default_name() -> (r: Vec<u8>)
    ensures
        r@ == crate::default_name_seq(),
{
    let mut v: Vec<u8> = Vec::new();
    v.push(85);
    v.push(110);
    v.push(116);
    v.push(105);
    v.push(116);
    v.push(108);
    v.push(101);
    v.push(100);
    v.push(46);
    v.push(104);
    v.push(113);
    v.push(120);
    proof {
        assert(v@ =~= crate::default_name_seq());
    }
    v
}

fn push_be16(v: &mut Vec<u8>, x: u16)
    ensures
        final (v)@ == old(v)@ + be16(x),
{
    let ghost pre = v@;
    v.push((x / 0x100) as u8);
    v.push((x % 0x100) as u8);
    proof {
        assert(v@ =~= pre + be16(x));
    }
}

fn push_be32(v: &mut Vec<u8>, x: u32)
    ensures
        final (v)@ == old(v)@ + be32(x),
{
    let ghost pre = v@;
    v.push((x / 0x1000000) as u8);
    v.push(((x / 0x10000) % 0x100) as u8);
    v.push(((x / 0x100) % 0x100) as u8);
    v.push((x % 0x100) as u8);
    proof {
        assert(v@ =~= pre + be32(x));
    }
}

fn append_bytes(dst: &mut Vec<u8>, src: &[u8])
    ensures
        final (dst)@ == old(dst)@ + src@,
{
    let ghost pre = dst@;
    let mut i: usize = 0;
    while i < src.len()
        invariant
            i <= src@.len(),
            dst@ == pre + src@.take(i as int),
        decreases src@.len() - i,
    {
        dst.push(src[i]);
        proof {
            assert(pre + src@.take(i + 1) =~= (pre + src@.take(i as int)).push(src@[i as int]));
        }
        i = i + 1;
    }
    proof {
        assert(src@.take(src@.len() as int) =~= src@);
    }
}

/// The assembled container bytes for the given effective fields: the header
/// with its CRC filled in, then each fork's payload followed by its CRC
/// field (zero for an absent fork).
pub open spec fn spec_header_pre(
    name: Seq<u8>,
    ft: Seq<u8>,
    au: Seq<u8>,
    fl: Seq<u8>,
    dlen: u32,
    rlen: u32,
) -> Seq<u8> {
    seq![name.len() as u8] + name + seq![0u8] + ft + au + fl + be32(dlen) + be32(rlen)
}

pub open spec fn spec_assemble(
    name: Seq<u8>,
    ft: Seq<u8>,
    au: Seq<u8>,
    fl: Seq<u8>,
    data: Seq<u8>,
    resource: Seq<u8>,
) -> Seq<u8> {
    let hp = spec_header_pre(name, ft, au, fl, data.len() as u32, resource.len() as u32);
    let dc: u16 = if data.len() > 0 {
        crc_flushed(data)
    } else {
        0
    };
    let rc: u16 = if resource.len() > 0 {
        crc_flushed(resource)
    } else {
        0
    };
    hp + be16(crc_flushed(hp)) + data + be16(dc) + resource + be16(rc)
}

/// Assembles a container from a configuration: header with computed header
/// CRC, then data fork and resource fork each followed by their CRC field.
#[verifier::rlimit(60)]
pub fn binhex(config: HQXConfig) -> (r: Result<HQX, EncodeError>)
    requires
        config.wf(),
    ensures
        r is Ok <==> config.eff_name().len() <= 255 && config.eff_data().len() <= u32::MAX
            && config.eff_resource().len() <= u32::MAX,
        r matches Ok(h) ==> h.vec@ == spec_assemble(
            config.eff_name(),
            config.eff_file_type(),
            config.eff_author(),
            config.eff_flags(),
            config.eff_data(),
            config.eff_resource(),
        ),
        config.eff_name().len() > 255 ==> r == Err::<HQX, EncodeError>(
            EncodeError::FileNameTooLong,
        ),
        config.eff_name().len() <= 255 && config.eff_data().len() > u32::MAX ==> r == Err::<
            HQX,
            EncodeError,
        >(EncodeError::DataTooLarge),
        config.eff_name().len() <= 255 && config.eff_data().len() <= u32::MAX
            && config.eff_resource().len() > u32::MAX ==> r == Err::<HQX, EncodeError>(
            EncodeError::ResourceTooLarge,
        ),
{
    let name: Vec<u8> = match config.name {
        Some(v) => v,
        None => default_name(),
    };
    let file_type: Vec<u8> = match config.file_type {
        Some(v) => v,
        None => {
            let mut t: Vec<u8> = Vec::new();
            t.push(0);
            t.push(0);
            t.push(0);
            t.push(0);
            proof {
                assert(t@ =~= seq![0u8, 0, 0, 0]);
            }
            t
        },
    };
    let author: Vec<u8> = match config.author {
        Some(v) => v,
        None => {
            let mut t: Vec<u8> = Vec::new();
            t.push(0);
            t.push(0);
            t.push(0);
            t.push(0);
            proof {
                assert(t@ =~= seq![0u8, 0, 0, 0]);
            }
            t
        },
    };
    let flags: Vec<u8> = match config.flags {
        Some(v) => v,
        None => {
            let mut t: Vec<u8> = Vec::new();
            t.push(0);
            t.push(0);
            proof {
                assert(t@ =~= seq![0u8, 0]);
            }
            t
        },
    };
    let data: Vec<u8> = match config.data {
        Some(v) => v,
        None => Vec::new(),
    };
    let resource: Vec<u8> = match config.resource {
        Some(v) => v,
        None => Vec::new(),
    };

    if name.len() > 255 {
        return Err(EncodeError::FileNameTooLong);
    }
    if data.len() as u64 > 0xFFFF_FFFF {
        return Err(EncodeError::DataTooLarge);
    }
    if resource.len() as u64 > 0xFFFF_FFFF {
        return Err(EncodeError::ResourceTooLarge);
    }
    let name_len: u8 = name.len() as u8;
    let data_len: u32 = data.len() as u32;
    let resource_len: u32 = resource.len() as u32;

    let ghost hp = spec_header_pre(
        config.eff_name(),
        config.eff_file_type(),
        config.eff_author(),
        config.eff_flags(),
        data_len,
        resource_len,
    );

    let mut hqx: Vec<u8> = Vec::new();
    hqx.push(name_len);
    append_bytes(&mut hqx, name.as_slice());
    hqx.push(0);
    append_bytes(&mut hqx, file_type.as_slice());
    append_bytes(&mut hqx, author.as_slice());
    append_bytes(&mut hqx, flags.as_slice());
    push_be32(&mut hqx, data_len);
    push_be32(&mut hqx, resource_len);
    proof {
        assert(hqx@ =~= hp);
    }

    proof {
        assert(hqx@.subrange(0, hqx@.len() as int) =~= hqx@);
    }
    let hc = crc_flushed_range(hqx.as_slice(), 0, hqx.len());
    push_be16(&mut hqx, hc);
    let ghost with_header = hp + be16(crc_flushed(hp));
    proof {
        assert(hqx@ =~= with_header);
    }

    append_bytes(&mut hqx, data.as_slice());
    let dc: u16 = if data_len > 0 {
        crc_flushed_range(data.as_slice(), 0, data.len())
    } else {
        0
    };
    push_be16(&mut hqx, dc);
    let ghost with_data = with_header + config.eff_data() + be16(dc);
    proof {
        assert(data@.subrange(0, data@.len() as int) =~= data@);
        assert(hqx@ =~= with_data);
    }

    append_bytes(&mut hqx, resource.as_slice());
    let rc: u16 = if resource_len > 0 {
        crc_flushed_range(resource.as_slice(), 0, resource.len())
    } else {
        0
    };
    push_be16(&mut hqx, rc);
    proof {
        assert(resource@.subrange(0, resource@.len() as int) =~= resource@);
        assert(hqx@ =~= spec_assemble(
            config.eff_name(),
            config.eff_file_type(),
            config.eff_author(),
            config.eff_flags(),
            config.eff_data(),
            config.eff_resource(),
        ));
    }

    Ok(HQX { vec: hqx })
}

proof fn lemma_be16_roundtrip(x: u16)
    ensures
        be16_val(be16(x), 0) == x,
{
    assert(((x / 0x100) % 0x100) * 0x100 + (x % 0x100) == x) by (bit_vector);
}

proof fn lemma_be32_roundtrip(x: u32)
    ensures
        be32_val(be32(x), 0) == x,
{
    assert(((x / 0x1000000) % 0x100) * 0x1000000 + ((x / 0x10000) % 0x100) * 0x10000 + ((x
        / 0x100) % 0x100) * 0x100 + (x % 0x100) == x) by (bit_vector);
}

proof fn lemma_concat_parts(a: Seq<u8>, b: Seq<u8>)
    ensures
        (a + b).len() == a.len() + b.len(),
        (a + b).subrange(0, a.len() as int) == a,
        (a + b).subrange(a.len() as int, a.len() + b.len() as int) == b,
{
    assert((a + b).subrange(0, a.len() as int) =~= a);
    assert((a + b).subrange(a.len() as int, a.len() + b.len() as int) =~= b);
}

proof fn lemma_subrange_within(s: Seq<u8>, m: int, x: int, y: int)
    requires
        0 <= x <= y <= m <= s.len(),
        s.subrange(0, m).len() == m,
    ensures
        s.subrange(0, m).subrange(x, y) == s.subrange(x, y),
{
    assert(s.subrange(0, m).subrange(x, y) =~= s.subrange(x, y));
}

proof fn lemma_header_pre_parts(
    name: Seq<u8>,
    ft: Seq<u8>,
    au: Seq<u8>,
    fl: Seq<u8>,
    dlen: u32,
    rlen: u32,
)
    requires
        name.len() <= 255,
        ft.len() == 4,
        au.len() == 4,
        fl.len() == 2,
    ensures
        ({
            let n = name.len() as int;
            let hp = spec_header_pre(name, ft, au, fl, dlen, rlen);
            &&& hp.len() == n + 20
            &&& hp.subrange(0, 1) == seq![name.len() as u8]
            &&& hp.subrange(1, 1 + n) == name
            &&& hp.subrange(1 + n, 2 + n) == seq![0u8]
            &&& hp.subrange(2 + n, 6 + n) == ft
            &&& hp.subrange(6 + n, 10 + n) == au
            &&& hp.subrange(10 + n, 12 + n) == fl
            &&& hp.subrange(12 + n, 16 + n) == be32(dlen)
            &&& hp.subrange(16 + n, 20 + n) == be32(rlen)
        }),
{
    let n = name.len() as int;
    let q1 = seq![name.len() as u8] + name;
    let q2 = q1 + seq![0u8];
    let q3 = q2 + ft;
    let q4 = q3 + au;
    let q5 = q4 + fl;
    let q6 = q5 + be32(dlen);
    let hp = spec_header_pre(name, ft, au, fl, dlen, rlen);
    assert(hp == q6 + be32(rlen));
    lemma_concat_parts(seq![name.len() as u8], name);
    lemma_concat_parts(q1, seq![0u8]);
    lemma_concat_parts(q2, ft);
    lemma_concat_parts(q3, au);
    lemma_concat_parts(q4, fl);
    lemma_concat_parts(q5, be32(dlen));
    lemma_concat_parts(q6, be32(rlen));
    lemma_subrange_within(hp, q6.len() as int, 0, 1);
    lemma_subrange_within(hp, q6.len() as int, 1, 1 + n);
    lemma_subrange_within(hp, q6.len() as int, 1 + n, 2 + n);
    lemma_subrange_within(hp, q6.len() as int, 2 + n, 6 + n);
    lemma_subrange_within(hp, q6.len() as int, 6 + n, 10 + n);
    lemma_subrange_within(hp, q6.len() as int, 10 + n, 12 + n);
    lemma_subrange_within(q6, q5.len() as int, 0, 1);
    lemma_subrange_within(q6, q5.len() as int, 1, 1 + n);
    lemma_subrange_within(q6, q5.len() as int, 1 + n, 2 + n);
    lemma_subrange_within(q6, q5.len() as int, 2 + n, 6 + n);
    lemma_subrange_within(q6, q5.len() as int, 6 + n, 10 + n);
    lemma_subrange_within(q5, q4.len() as int, 0, 1);
    lemma_subrange_within(q5, q4.len() as int, 1, 1 + n);
    lemma_subrange_within(q5, q4.len() as int, 1 + n, 2 + n);
    lemma_subrange_within(q5, q4.len() as int, 2 + n, 6 + n);
    lemma_subrange_within(q4, q3.len() as int, 0, 1);
    lemma_subrange_within(q4, q3.len() as int, 1, 1 + n);
    lemma_subrange_within(q4, q3.len() as int, 1 + n, 2 + n);
    lemma_subrange_within(q3, q2.len() as int, 0, 1);
    lemma_subrange_within(q3, q2.len() as int, 1, 1 + n);
    lemma_subrange_within(q2, q1.len() as int, 0, 1);
    lemma_subrange_within(q2, q1.len() as int, 1, 1 + n);
}

/// Round trip: a container assembled from any admissible fields parses back
/// to exactly those fields — same name, type, author, flags, fork lengths
/// and fork payloads — and all three of its CRC sections verify.
#[verifier::rlimit(100)]
pub proof fn lemma_assemble_round_trip(
    name: Seq<u8>,
    ft: Seq<u8>,
    au: Seq<u8>,
    fl: Seq<u8>,
    data: Seq<u8>,
    resource: Seq<u8>,
)
    requires
        name.len() <= 255,
        forall|i: int| 0 <= i < name.len() ==> name[i] != 0,
        ft.len() == 4,
        au.len() == 4,
        fl.len() == 2,
        data.len() <= u32::MAX,
        resource.len() <= u32::MAX,
    ensures
        ({
            let s = spec_assemble(name, ft, au, fl, data, resource);
            &&& parse_ok(s)
            &&& name_of(s) == name
            &&& file_type_of(s) == ft
            &&& author_of(s) == au
            &&& flags_of(s) == fl
            &&& data_len_of(s) == data.len()
            &&& resource_len_of(s) == resource.len()
            &&& data_of(s) == data
            &&& resource_of(s) == resource
            &&& spec_verify(s) == Ok::<(), DecodeError>(())
        }),
{
    let n = name.len() as int;
    let dlen = data.len() as u32;
    let rlen = resource.len() as u32;
    let hp = spec_header_pre(name, ft, au, fl, dlen, rlen);
    let hc = crc_flushed(hp);
    let dc: u16 = if data.len() > 0 {
        crc_flushed(data)
    } else {
        0
    };
    let rc: u16 = if resource.len() > 0 {
        crc_flushed(resource)
    } else {
        0
    };
    let s = spec_assemble(name, ft, au, fl, data, resource);
    lemma_header_pre_parts(name, ft, au, fl, dlen, rlen);
    assert(hp.len() == n + 20);

    let p1 = hp + be16(hc);
    let p2 = p1 + data;
    let p3 = p2 + be16(dc);
    let p4 = p3 + resource;
    assert(s == p4 + be16(rc));
    lemma_concat_parts(hp, be16(hc));
    lemma_concat_parts(p1, data);
    lemma_concat_parts(p2, be16(dc));
    lemma_concat_parts(p3, resource);
    lemma_concat_parts(p4, be16(rc));
    assert(s.len() == n + 26 + data.len() + resource.len());

    // each nested segment is a subrange of the whole buffer
    assert(s.subrange(0, p4.len() as int) == p4);
    lemma_subrange_within(s, p4.len() as int, 0, p3.len() as int);
    assert(s.subrange(0, p3.len() as int) == p3);
    lemma_subrange_within(s, p3.len() as int, 0, p2.len() as int);
    assert(s.subrange(0, p2.len() as int) == p2);
    lemma_subrange_within(s, p2.len() as int, 0, p1.len() as int);
    assert(s.subrange(0, p1.len() as int) == p1);
    lemma_subrange_within(s, p1.len() as int, 0, hp.len() as int);
    assert(s.subrange(0, n + 20) == hp);

    // header fields
    lemma_subrange_within(s, n + 20, 0, 1);
    assert(s.subrange(0, 1) == seq![name.len() as u8]);
    assert(s[0] == s.subrange(0, 1)[0]);
    assert(crate::name_len_of(s) == n);
    lemma_subrange_within(s, n + 20, 1, 1 + n);
    assert(name_of(s) == name);
    lemma_subrange_within(s, n + 20, 1 + n, 2 + n);
    assert(s[1 + n] == s.subrange(1 + n, 2 + n)[0]);
    assert(s[1 + n] == 0);
    assert forall|i: int| 1 <= i < 1 + n implies s[i] != 0 by {
        assert(s.subrange(1, 1 + n)[i - 1] == s[i]);
    }
    assert(crate::header_ok(s));
    lemma_subrange_within(s, n + 20, 2 + n, 6 + n);
    assert(file_type_of(s) == ft);
    lemma_subrange_within(s, n + 20, 6 + n, 10 + n);
    assert(author_of(s) == au);
    lemma_subrange_within(s, n + 20, 10 + n, 12 + n);
    assert(flags_of(s) == fl);

    // fork lengths
    lemma_subrange_within(s, n + 20, 12 + n, 16 + n);
    lemma_subrange_within(s, n + 20, 16 + n, 20 + n);
    lemma_be32_roundtrip(dlen);
    lemma_be32_roundtrip(rlen);
    assert(data_len_of(s) == dlen) by {
        assert(s.subrange(n + 12, n + 16)[0] == s[n + 12]);
        assert(s.subrange(n + 12, n + 16)[1] == s[n + 13]);
        assert(s.subrange(n + 12, n + 16)[2] == s[n + 14]);
        assert(s.subrange(n + 12, n + 16)[3] == s[n + 15]);
    }
    assert(resource_len_of(s) == rlen) by {
        assert(s.subrange(n + 16, n + 20)[0] == s[n + 16]);
        assert(s.subrange(n + 16, n + 20)[1] == s[n + 17]);
        assert(s.subrange(n + 16, n + 20)[2] == s[n + 18]);
        assert(s.subrange(n + 16, n + 20)[3] == s[n + 19]);
    }

    // layout positions
    assert(crate::data_start(s) == n + 22);
    assert(crate::data_crc_pos(s) == n + 22 + dlen);
    assert(s.len() - crate::data_crc_pos(s) == 2 + resource.len() + 2);
    assert(crate::resource_start(s) == n + 24 + dlen);
    assert(crate::resource_crc_pos(s) == n + 24 + dlen + rlen);
    assert(parse_ok(s));

    // fork payloads
    lemma_subrange_within(s, p2.len() as int, p1.len() as int, p2.len() as int);
    assert(data_of(s) == data);
    lemma_subrange_within(s, p4.len() as int, p3.len() as int, p4.len() as int);
    assert(resource_of(s) == resource);

    // stored checksums
    assert(header_pre_of(s) == hp);
    lemma_be16_roundtrip(hc);
    lemma_subrange_within(s, p1.len() as int, hp.len() as int, p1.len() as int);
    assert(s.subrange(n + 20, n + 22) == be16(hc));
    assert(header_crc_of(s) == hc) by {
        assert(s.subrange(n + 20, n + 22)[0] == s[n + 20]);
        assert(s.subrange(n + 20, n + 22)[1] == s[n + 21]);
    }
    lemma_be16_roundtrip(dc);
    lemma_subrange_within(s, p3.len() as int, p2.len() as int, p3.len() as int);
    assert(s.subrange(n + 22 + dlen, n + 24 + dlen) == be16(dc));
    assert(data_crc_of(s) == dc) by {
        assert(s.subrange(n + 22 + dlen, n + 24 + dlen)[0] == s[n + 22 + dlen]);
        assert(s.subrange(n + 22 + dlen, n + 24 + dlen)[1] == s[n + 23 + dlen]);
    }
    lemma_be16_roundtrip(rc);
    let rp = n + 24 + dlen as int + rlen as int;
    assert(s.subrange(rp, rp + 2) == be16(rc));
    assert(resource_crc_of(s) == rc) by {
        assert(s.subrange(rp, rp + 2)[0] == s[rp]);
        assert(s.subrange(rp, rp + 2)[1] == s[rp + 1]);
    }

    assert(spec_verify(s) == Ok::<(), DecodeError>(()));
}

/// A freshly assembled container is coherent: parsing it back recovers
/// exactly the configuration's effective fields, and its header, data-fork
/// and resource-fork CRC checks all pass.
pub proof fn lemma_config_round_trip(config: HQXConfig)
    requires
        config.wf(),
        config.eff_name().len() <= 255,
        config.eff_data().len() <= u32::MAX,
        config.eff_resource().len() <= u32::MAX,
    ensures
        ({
            let s = spec_assemble(
                config.eff_name(),
                config.eff_file_type(),
                config.eff_author(),
                config.eff_flags(),
                config.eff_data(),
                config.eff_resource(),
            );
            &&& parse_ok(s)
            &&& name_of(s) == config.eff_name()
            &&& file_type_of(s) == config.eff_file_type()
            &&& author_of(s) == config.eff_author()
            &&& flags_of(s) == config.eff_flags()
            &&& data_len_of(s) == config.eff_data().len()
            &&& resource_len_of(s) == config.eff_resource().len()
            &&& data_of(s) == config.eff_data()
            &&& resource_of(s) == config.eff_resource()
            &&& spec_verify(s) == Ok::<(), DecodeError>(())
        }),
{
    lemma_assemble_round_trip(
        config.eff_name(),
        config.eff_file_type(),
        config.eff_author(),
        config.eff_flags(),
        config.eff_data(),
        config.eff_resource(),
    );
}

/// Boundary: a container with empty data and resource forks still carries
/// the two 2-byte zero CRC placeholders — it is exactly 4 bytes longer than
/// its header — and parses with both forks absent.
pub proof fn lemma_empty_forks_boundary(name: Seq<u8>, ft: Seq<u8>, au: Seq<u8>, fl: Seq<u8>)
    requires
        name.len() <= 255,
        forall|i: int| 0 <= i < name.len() ==> name[i] != 0,
        ft.len() == 4,
        au.len() == 4,
        fl.len() == 2,
    ensures
        ({
            let s = spec_assemble(name, ft, au, fl, Seq::empty(), Seq::empty());
            &&& s.len() == name.len() + 22 + 4
            &&& parse_ok(s)
            &&& data_len_of(s) == 0
            &&& resource_len_of(s) == 0
            &&& data_crc_of(s) == 0
            &&& resource_crc_of(s) == 0
        }),
{
    lemma_assemble_round_trip(name, ft, au, fl, Seq::empty(), Seq::empty());
}

proof fn lemma_rle_escape_round_trip(s: Seq<u8>, last: u8)
    ensures
        spec_rle(spec_rle_escape(s), false, last) == s,
        spec_rle_ok(spec_rle_escape(s), false),
    decreases s.len(),
{
    reveal_with_fuel(spec_rle, 4);
    reveal_with_fuel(spec_rle_ok, 4);
    if s.len() > 0 {
        let t = spec_rle_escape(s);
        let rest = spec_rle_escape(s.drop_first());
        if s[0] == 0x90 {
            assert(t[0] == 0x90);
            assert(t.drop_first() =~= seq![0u8] + rest);
            assert((seq![0u8] + rest)[0] == 0);
            assert((seq![0u8] + rest).drop_first() =~= rest);
            lemma_rle_escape_round_trip(s.drop_first(), 0x90);
            assert(spec_rle(t, false, last) == spec_rle(seq![0u8] + rest, true, last));
            assert(spec_rle(seq![0u8] + rest, true, last) == seq![0x90u8] + spec_rle(
                rest,
                false,
                0x90,
            ));
            assert(spec_rle(t, false, last) =~= s);
            assert(spec_rle_ok(t, false) == spec_rle_ok(seq![0u8] + rest, true));
            assert(spec_rle_ok(seq![0u8] + rest, true) == spec_rle_ok(rest, false));
        } else {
            assert(t.drop_first() =~= rest);
            lemma_rle_escape_round_trip(s.drop_first(), s[0]);
            assert(spec_rle(t, false, last) =~= s);
        }
    }
}

proof fn lemma_unpack_pack(s: Seq<u8>)
    ensures
        spec_unpack(spec_pack(s, 0, 0), 0, 0) == s,
    decreases s.len(),
{
    reveal_with_fuel(spec_pack, 5);
    reveal_with_fuel(spec_unpack, 6);
    let p = spec_pack(s, 0, 0);
    if s.len() == 0 {
    } else if s.len() == 1 {
        let a = s[0];
        assert(s.drop_first() =~= Seq::<u8>::empty());
        assert(p =~= seq![(a >> 2) & 0x3F, ((a & 0x03) << 4) & 0x30]);
        assert(p.drop_first() =~= seq![((a & 0x03) << 4) & 0x30]);
        assert(p.drop_first().drop_first() =~= Seq::<u8>::empty());
        assert((((a >> 2) & 0x3F) << 2) | ((((a & 0x03) << 4) & 0x30) >> 4) == a) by (bit_vector);
        assert(spec_unpack(p, 0, 0) =~= s);
    } else if s.len() == 2 {
        let a = s[0];
        let b = s[1];
        assert(s.drop_first()[0] == b);
        assert(s.drop_first().drop_first() =~= Seq::<u8>::empty());
        let y0 = (a >> 2) & 0x3F;
        let y1 = (((a & 0x03) << 4) & 0x30) | (b >> 4);
        let y2 = ((b & 0x0F) << 2) & 0x3C;
        assert(p =~= seq![y0, y1, y2]);
        assert(p.drop_first() =~= seq![y1, y2]);
        assert(p.drop_first().drop_first() =~= seq![y2]);
        assert(p.drop_first().drop_first().drop_first() =~= Seq::<u8>::empty());
        assert(((((a >> 2) & 0x3F) << 2) | (((((a & 0x03) << 4) & 0x30) | (b >> 4)) >> 4) == a)
            && ((((((((a & 0x03) << 4) & 0x30) | (b >> 4)) & 0x0F) << 4) | ((((b & 0x0F) << 2)
            & 0x3C) >> 2)) == b)) by (bit_vector);
        assert(spec_unpack(p, 0, 0) =~= s);
    } else {
        let a = s[0];
        let b = s[1];
        let c = s[2];
        let rest = s.skip(3);
        assert(s.drop_first()[0] == b);
        assert(s.drop_first().drop_first()[0] == c);
        assert(s.drop_first().drop_first().drop_first() =~= rest);
        let y0 = (a >> 2) & 0x3F;
        let y1 = (((a & 0x03) << 4) & 0x30) | (b >> 4);
        let y2 = (((b & 0x0F) << 2) & 0x3C) | (c >> 6);
        let y3 = c & 0x3F;
        let pr = spec_pack(rest, 0, 0);
        assert(p =~= seq![y0, y1, y2, y3] + pr);
        assert(p[0] == y0 && p[1] == y1 && p[2] == y2 && p[3] == y3);
        assert(p.drop_first() =~= seq![y1, y2, y3] + pr);
        assert(p.drop_first().drop_first() =~= seq![y2, y3] + pr);
        assert(p.drop_first().drop_first().drop_first() =~= seq![y3] + pr);
        assert(p.drop_first().drop_first().drop_first().drop_first() =~= pr);
        lemma_unpack_pack(rest);
        assert(((((a >> 2) & 0x3F) << 2) | (((((a & 0x03) << 4) & 0x30) | (b >> 4)) >> 4) == a)
            && ((((((((a & 0x03) << 4) & 0x30) | (b >> 4)) & 0x0F) << 4) | (((((b & 0x0F) << 2)
            & 0x3C) | (c >> 6)) >> 2)) == b) && ((((((((b & 0x0F) << 2) & 0x3C) | (c >> 6))
            & 0x03) << 6) | (c & 0x3F)) == c)) by (bit_vector);
        assert(spec_unpack(p, 0, 0) =~= seq![a, b, c] + rest);
        assert(seq![a, b, c] + rest =~= s);
    }
}

proof fn lemma_pack_symbols_bounded(s: Seq<u8>, st: u8, save: u8)
    ensures
        forall|i: int|
            0 <= i < spec_pack(s, st, save).len() ==> #[trigger] spec_pack(s, st, save)[i] < 64,
    decreases s.len(),
{
    let p = spec_pack(s, st, save);
    if s.len() == 0 {
        assert(((save << 4) & 0x30) < 64) by (bit_vector);
        assert(((save << 2) & 0x3C) < 64) by (bit_vector);
    } else {
        let b = s[0];
        assert(((b >> 2) & 0x3F) < 64) by (bit_vector);
        assert((((save << 4) & 0x30) | (b >> 4)) < 64) by (bit_vector);
        assert((((save << 2) & 0x3C) | (b >> 6)) < 64) by (bit_vector);
        assert((b & 0x3F) < 64) by (bit_vector);
        if st == 0 {
            let tail = spec_pack(s.drop_first(), 1, b & 0x03);
            lemma_pack_symbols_bounded(s.drop_first(), 1, b & 0x03);
            assert(p =~= seq![(b >> 2) & 0x3F] + tail);
            assert forall|i: int| 0 <= i < p.len() implies p[i] < 64 by {
                if i > 0 {
                    assert(p[i] == tail[i - 1]);
                }
            }
        } else if st == 1 {
            let tail = spec_pack(s.drop_first(), 2, b & 0x0F);
            lemma_pack_symbols_bounded(s.drop_first(), 2, b & 0x0F);
            assert(p =~= seq![((save << 4) & 0x30) | (b >> 4)] + tail);
            assert forall|i: int| 0 <= i < p.len() implies p[i] < 64 by {
                if i > 0 {
                    assert(p[i] == tail[i - 1]);
                }
            }
        } else {
            let tail = spec_pack(s.drop_first(), 0, 0);
            lemma_pack_symbols_bounded(s.drop_first(), 0, 0);
            assert(p =~= seq![((save << 2) & 0x3C) | (b >> 6), b & 0x3F] + tail);
            assert forall|i: int| 0 <= i < p.len() implies p[i] < 64 by {
                if i > 1 {
                    assert(p[i] == tail[i - 2]);
                }
            }
        }
    }
}

proof fn lemma_symbols_of_lines(syms: Seq<u8>, k: int)
    requires
        forall|i: int| 0 <= i < syms.len() ==> syms[i] < 64,
    ensures
        spec_symbols(spec_lines(syms, k)) == syms,
        symbols_ok(spec_lines(syms, k)),
        forall|i: int|
            0 <= i < spec_lines(syms, k).len() ==> #[trigger] spec_lines(syms, k)[i] != 58,
    decreases syms.len(),
{
    reveal_with_fuel(spec_symbols, 4);
    reveal_with_fuel(symbols_ok, 4);
    if syms.len() > 0 {
        let v = syms[0];
        let c = spec_encode6(v);
        lemma_alphabet_bijection(v);
        assert(c != 58);
        let t = spec_lines(syms, k);
        if k == 63 {
            let rest = spec_lines(syms.drop_first(), 0);
            lemma_symbols_of_lines(syms.drop_first(), 0);
            assert(t =~= seq![c, 13u8, 10u8] + rest);
            assert(t[0] == c);
            assert(t.drop_first() =~= seq![13u8, 10u8] + rest);
            assert((seq![13u8, 10u8] + rest)[0] == 13);
            assert((seq![13u8, 10u8] + rest).drop_first() =~= seq![10u8] + rest);
            assert((seq![10u8] + rest)[0] == 10);
            assert((seq![10u8] + rest).drop_first() =~= rest);
            assert(spec_symbols(t) =~= seq![v] + syms.drop_first());
            assert(seq![v] + syms.drop_first() =~= syms);
            assert(symbols_ok(t));
            assert forall|i: int| 0 <= i < t.len() implies t[i] != 58 by {
                if i >= 3 {
                    assert(t[i] == rest[i - 3]);
                }
            }
        } else {
            let rest = spec_lines(syms.drop_first(), k + 1);
            lemma_symbols_of_lines(syms.drop_first(), k + 1);
            assert(t =~= seq![c] + rest);
            assert(t[0] == c);
            assert(t.drop_first() =~= rest);
            assert(spec_symbols(t) =~= seq![v] + syms.drop_first());
            assert(seq![v] + syms.drop_first() =~= syms);
            assert(symbols_ok(t));
            assert forall|i: int| 0 <= i < t.len() implies t[i] != 58 by {
                if i >= 1 {
                    assert(t[i] == rest[i - 1]);
                }
            }
        }
    }
}

proof fn lemma_find_byte_first(s: Seq<u8>, b: u8, i: int, c: int)
    requires
        0 <= i <= c < s.len(),
        forall|j: int| i <= j < c ==> s[j] != b,
        s[c] == b,
    ensures
        find_byte(s, b, i) == Some(c),
    decreases c - i,
{
    if i < c {
        lemma_find_byte_first(s, b, i + 1, c);
    }
}

#[verifier::rlimit(100)]
proof fn lemma_printable_parses(s: Seq<u8>)
    ensures
        spec_parse(spec_printable(s)) == Some(
            spec_lines(spec_pack(spec_rle_escape(s), 0, 0), 0),
        ),
{
    let body = spec_lines(spec_pack(spec_rle_escape(s), 0, 0), 0);
    let text = spec_printable(s);
    let tail7 = seq![32u8, 52, 46, 48, 41, 10, 10];
    let tail3 = seq![58u8, 13u8, 10u8];
    let m1 = marker_full() + seq![58u8];
    let m2 = m1 + body;
    assert(text == m2 + tail3);
    lemma_concat_parts(marker_prefix(), tail7);
    lemma_concat_parts(marker_full(), seq![58u8]);
    lemma_concat_parts(m1, body);
    lemma_concat_parts(m2, tail3);
    assert(marker_full().len() == 47);

    assert(text.subrange(0, 40) =~= marker_prefix()) by {
        assert forall|j: int| 0 <= j < 40 implies text[j] == marker_prefix()[j] by {
            assert(text[j] == m2[j]);
            assert(m2[j] == m1[j]);
            assert(m1[j] == marker_full()[j]);
            assert(marker_full()[j] == marker_prefix()[j]);
        }
    }
    assert(is_marker_at(text, 0));
    assert(find_marker(text, 0) == Some(0int));

    assert forall|j: int| 0 <= j < 47 implies text[j] != 58 by {
        assert(text[j] == m2[j]);
        assert(m2[j] == m1[j]);
        assert(m1[j] == marker_full()[j]);
        if j < 40 {
            assert(marker_full()[j] == marker_prefix()[j]);
            assert(marker_prefix()[j] != 58);
        } else {
            assert(marker_full()[j] == tail7[j - 40]);
        }
    }
    assert(text[47] == 58) by {
        assert(text[47] == m2[47]);
        assert(m2[47] == m1[47]);
    }
    lemma_find_byte_first(text, 58, 0, 47);

    lemma_pack_symbols_bounded(spec_rle_escape(s), 0, 0);
    lemma_symbols_of_lines(spec_pack(spec_rle_escape(s), 0, 0), 0);
    assert forall|j: int| 48 <= j < 48 + body.len() implies text[j] != 58 by {
        assert(text[j] == m2[j]);
        assert(m2[j] == body[j - 48]);
    }
    assert(text[48 + body.len() as int] == 58) by {
        assert(text[48 + body.len() as int] == tail3[0]);
    }
    lemma_find_byte_first(text, 58, 48, 48 + body.len() as int);

    assert(text.subrange(48, 48 + body.len() as int) =~= body) by {
        assert forall|j: int| 0 <= j < body.len() implies text[48 + j] == body[j] by {
            assert(text[48 + j] == m2[48 + j]);
        }
    }
    assert(spec_parse(text) == Some(body));
}

/// Printable round trip: the text of any container parses, decodes cleanly,
/// and yields exactly the container bytes again; with verification on, the
/// decode succeeds or fails exactly as the container itself verifies.
pub proof fn lemma_printable_round_trip(s: Seq<u8>)
    ensures
        spec_hexbin(spec_printable(s), false) == Ok::<Seq<u8>, DecodeError>(s),
        spec_verify(s) == Ok::<(), DecodeError>(()) ==> spec_hexbin(spec_printable(s), true)
            == Ok::<Seq<u8>, DecodeError>(s),
        spec_verify(s) matches Err(e) ==> spec_hexbin(spec_printable(s), true) == Err::<
            Seq<u8>,
            DecodeError,
        >(e),
{
    let esc = spec_rle_escape(s);
    let syms = spec_pack(esc, 0, 0);
    let body = spec_lines(syms, 0);
    lemma_printable_parses(s);
    lemma_pack_symbols_bounded(esc, 0, 0);
    lemma_symbols_of_lines(syms, 0);
    lemma_unpack_pack(esc);
    lemma_rle_escape_round_trip(s, 0);
    assert(spec_unpacked(body) == esc);
    assert(spec_decoded(body) == s);
    assert(decode_ok(body));
}

/// End-to-end round trip: the printable text of a freshly assembled
/// container decodes, with or without verification, back to exactly the
/// container bytes, whose parse recovers the configuration's fields.
pub proof fn lemma_config_printable_round_trip(config: HQXConfig)
    requires
        config.wf(),
        config.eff_name().len() <= 255,
        config.eff_data().len() <= u32::MAX,
        config.eff_resource().len() <= u32::MAX,
    ensures
        ({
            let s = spec_assemble(
                config.eff_name(),
                config.eff_file_type(),
                config.eff_author(),
                config.eff_flags(),
                config.eff_data(),
                config.eff_resource(),
            );
            &&& spec_hexbin(spec_printable(s), false) == Ok::<Seq<u8>, DecodeError>(s)
            &&& spec_hexbin(spec_printable(s), true) == Ok::<Seq<u8>, DecodeError>(s)
        }),
{
    let s = spec_assemble(
        config.eff_name(),
        config.eff_file_type(),
        config.eff_author(),
        config.eff_flags(),
        config.eff_data(),
        config.eff_resource(),
    );
    lemma_config_round_trip(config);
    lemma_printable_round_trip(s);
}

/// Flipping any single bit inside a fork's payload of a verified container
/// and re-encoding it makes a verifying decode of the printable text fail
/// with exactly that fork's CRC error.
pub proof fn lemma_bit_flip_detected_through_text(s: Seq<u8>, t: Seq<u8>, i: int, k: u8)
    requires
        spec_verify(s) == Ok::<(), DecodeError>(()),
        s.len() == t.len(),
        0 <= i < s.len(),
        forall|j: int| 0 <= j < s.len() && j != i ==> s[j] == t[j],
        k < 8,
        t[i] == (s[i] ^ (1u8 << k)),
        (crate::data_start(s) <= i < crate::data_start(s) + data_len_of(s) as int) || (
        crate::resource_start(s) <= i < crate::resource_start(s) + resource_len_of(s) as int),
    ensures
        crate::data_start(s) <= i < crate::data_start(s) + data_len_of(s) as int ==> spec_hexbin(
            spec_printable(t),
            true,
        ) == Err::<Seq<u8>, DecodeError>(
            DecodeError::CRCVerificationError(crate::error::CRCVerificationError::Data),
        ),
        crate::resource_start(s) <= i < crate::resource_start(s) + resource_len_of(s) as int
            ==> spec_hexbin(spec_printable(t), true) == Err::<Seq<u8>, DecodeError>(
            DecodeError::CRCVerificationError(crate::error::CRCVerificationError::Resource),
        ),
{
    crate::verify::lemma_fork_bit_flip_detected(s, t, i, k);
    lemma_printable_round_trip(t);
}

impl HQXRef {
    /// Produces the printable BinHex text of this container: marker line,
    /// opening colon, the RLE-escaped, packed and line-wrapped payload,
    /// closing colon, CR+LF. Escaping `0x90` and flushing the trailing
    /// carry bits make the text decode back to exactly these bytes.
    pub fn encode(&self) -> (r: Vec<u8>)
        ensures
            r@ == spec_printable(self.hqx.vec@),
    {
        let bytes = self.hqx.vec.as_slice();

        let mut escaped: Vec<u8> = Vec::new();
        let mut e: usize = 0;
        proof {
            assert(bytes@.skip(0) =~= bytes@);
            assert(Seq::<u8>::empty() + spec_rle_escape(bytes@) =~= spec_rle_escape(bytes@));
        }
        while e < bytes.len()
            invariant
                e <= bytes@.len(),
                escaped@ + spec_rle_escape(bytes@.skip(e as int)) == spec_rle_escape(bytes@),
            decreases bytes@.len() - e,
        {
            let b = bytes[e];
            proof {
                assert(bytes@.skip(e as int).drop_first() =~= bytes@.skip(e + 1));
                assert(bytes@.skip(e as int)[0] == bytes@[e as int]);
            }
            let ghost prev = escaped@;
            if b == 0x90 {
                escaped.push(0x90);
                escaped.push(0x00);
            } else {
                escaped.push(b);
            }
            proof {
                assert(escaped@ + spec_rle_escape(bytes@.skip(e + 1)) =~= prev + spec_rle_escape(
                    bytes@.skip(e as int),
                ));
            }
            e = e + 1;
        }
        proof {
            assert(bytes@.skip(bytes@.len() as int) =~= Seq::<u8>::empty());
            assert(escaped@ =~= spec_rle_escape(bytes@));
        }

        let mut syms: Vec<u8> = Vec::new();
        let mut st: u8 = 0;
        let mut save: u8 = 0;
        let mut i: usize = 0;
        proof {
            assert(escaped@.skip(0) =~= escaped@);
            assert(Seq::<u8>::empty() + spec_pack(escaped@, 0, 0) =~= spec_pack(escaped@, 0, 0));
        }
        while i < escaped.len()
            invariant
                i <= escaped@.len(),
                st < 3,
                syms@ + spec_pack(escaped@.skip(i as int), st, save) == spec_pack(escaped@, 0, 0),
            decreases escaped@.len() - i,
        {
            let b = escaped[i];
            proof {
                assert(escaped@.skip(i as int).drop_first() =~= escaped@.skip(i + 1));
                assert(escaped@.skip(i as int)[0] == escaped@[i as int]);
            }
            let ghost prev = syms@;
            let ghost old_st = st;
            let ghost old_save = save;
            if st == 0 {
                syms.push((b >> 2) & 0x3F);
                save = b & 0x03;
                st = 1;
            } else if st == 1 {
                syms.push(((save << 4) & 0x30) | (b >> 4));
                save = b & 0x0F;
                st = 2;
            } else {
                syms.push(((save << 2) & 0x3C) | (b >> 6));
                syms.push(b & 0x3F);
                save = 0;
                st = 0;
            }
            proof {
                assert(syms@ + spec_pack(escaped@.skip(i + 1), st, save) =~= prev + spec_pack(
                    escaped@.skip(i as int),
                    old_st,
                    old_save,
                ));
            }
            i = i + 1;
        }
        proof {
            assert(escaped@.skip(escaped@.len() as int) =~= Seq::<u8>::empty());
        }
        if st == 1 {
            syms.push((save << 4) & 0x30);
        } else if st == 2 {
            syms.push((save << 2) & 0x3C);
        }
        proof {
            assert(syms@ =~= spec_pack(escaped@, 0, 0));
        }

        let mut encoded: Vec<u8> = Vec::new();
        let marker = crate::parse::marker_prefix_bytes();
        append_bytes(&mut encoded, marker.as_slice());
        encoded.push(32);
        encoded.push(52);
        encoded.push(46);
        encoded.push(48);
        encoded.push(41);
        encoded.push(10);
        encoded.push(10);
        encoded.push(58);
        let ghost opening = marker_full() + seq![58u8];
        proof {
            assert(encoded@ =~= opening);
        }

        let mut k: u8 = 0;
        let mut j: usize = 0;
        proof {
            assert(syms@.skip(0) =~= syms@);
            assert(encoded@ + spec_lines(syms@, 0) =~= opening + spec_lines(syms@, 0));
        }
        while j < syms.len()
            invariant
                j <= syms@.len(),
                k < 64,
                encoded@ + spec_lines(syms@.skip(j as int), k as int) == opening + spec_lines(
                    syms@,
                    0,
                ),
            decreases syms@.len() - j,
        {
            let sym = syms[j];
            proof {
                assert(syms@.skip(j as int).drop_first() =~= syms@.skip(j + 1));
                assert(syms@.skip(j as int)[0] == syms@[j as int]);
            }
            let ghost prev = encoded@;
            let ghost old_k = k;
            encoded.push(encode6(sym));
            if k == 63 {
                encoded.push(13);
                encoded.push(10);
                k = 0;
            } else {
                k = k + 1;
            }
            proof {
                assert(encoded@ + spec_lines(syms@.skip(j + 1), k as int) =~= prev + spec_lines(
                    syms@.skip(j as int),
                    old_k as int,
                ));
            }
            j = j + 1;
        }
        proof {
            assert(syms@.skip(syms@.len() as int) =~= Seq::<u8>::empty());
        }
        encoded.push(58);
        encoded.push(13);
        encoded.push(10);
        proof {
            assert(encoded@ =~= spec_printable(self.hqx.vec@));
        }
        encoded
    }
}

} // verus!
