use vstd::prelude::*;

pub mod decode;
pub mod encode;
pub mod error;
pub mod parse;
pub mod verify;

use crate::encode::binhex;
use crate::error::DecodeError;
use crate::error::EncodeError;
use crate::verify::crc_flushed;

verus! {

/// An assembled or decoded BinHex container: the flat byte buffer holding
/// header, data fork and resource fork with their CRC fields.
#[derive(Debug)]
pub struct HQX {
    pub vec: Vec<u8>,
}

/// One fork (data or resource): its payload bytes and the 16-bit CRC that
/// guarded them in the serialized stream.
#[derive(Debug, Default)]
pub struct Fork {
    pub data: Vec<u8>,
    pub crc: u16,
}

/// The parsed view of a container: every header field and the two optional
/// forks, copied out of the backing buffer.
#[derive(Debug)]
pub struct HQXRef {
    pub hqx: HQX,
    pub name_len: u8,
    pub name: Vec<u8>,
    pub file_type: Vec<u8>,
    pub author: Vec<u8>,
    pub flags: Vec<u8>,
    pub data_len: u32,
    pub resource_len: u32,
    pub hc: u16,
    pub header_len: u16,
    pub data_fork: Option<Fork>,
    pub resource_fork: Option<Fork>,
}

/// Configuration for assembling a container; every field falls back to a
/// default when absent (`"Untitled.hqx"`, zero bytes, empty forks).
pub struct HQXConfig {
    pub name: Option<Vec<u8>>,
    pub file_type: Option<Vec<u8>>,
    pub author: Option<Vec<u8>>,
    pub flags: Option<Vec<u8>>,
    pub data: Option<Vec<u8>>,
    pub resource: Option<Vec<u8>>,
}

/// The name a container is given when the configuration leaves it out:
/// `"Untitled.hqx"`.
pub open spec fn default_name_seq() -> Seq<u8> {
    seq![85u8, 110, 116, 105, 116, 108, 101, 100, 46, 104, 113, 120]
}

impl HQXConfig {
    /// The name that will be written: the configured one, or the default.
    pub open spec fn eff_name(&self) -> Seq<u8> {
        match self.name {
            Some(v) => v@,
            None => default_name_seq(),
        }
    }

    /// The file type that will be written: the configured one, or four zeros.
    pub open spec fn eff_file_type(&self) -> Seq<u8> {
        match self.file_type {
            Some(v) => v@,
            None => seq![0u8, 0, 0, 0],
        }
    }

    /// The author code that will be written: the configured one, or four zeros.
    pub open spec fn eff_author(&self) -> Seq<u8> {
        match self.author {
            Some(v) => v@,
            None => seq![0u8, 0, 0, 0],
        }
    }

    /// The flags that will be written: the configured ones, or two zeros.
    pub open spec fn eff_flags(&self) -> Seq<u8> {
        match self.flags {
            Some(v) => v@,
            None => seq![0u8, 0],
        }
    }

    /// The data fork payload: the configured one, or empty.
    pub open spec fn eff_data(&self) -> Seq<u8> {
        match self.data {
            Some(v) => v@,
            None => Seq::empty(),
        }
    }

    /// The resource fork payload: the configured one, or empty.
    pub open spec fn eff_resource(&self) -> Seq<u8> {
        match self.resource {
            Some(v) => v@,
            None => Seq::empty(),
        }
    }

    /// The fixed-width fields, when given, have their layout width, and the
    /// name holds no interior NUL: the layout stores it NUL-terminated, so a
    /// name with a NUL inside could never be parsed back.
    pub open spec fn wf(&self) -> bool {
        &&& (self.file_type matches Some(v) ==> v@.len() == 4)
        &&& (self.author matches Some(v) ==> v@.len() == 4)
        &&& (self.flags matches Some(v) ==> v@.len() == 2)
        &&& forall|i: int| 0 <= i < self.eff_name().len() ==> self.eff_name()[i] != 0
    }

    /// The byte length of the configured name; an absent name counts as zero
    /// here, before the default is filled in.
    pub open spec fn configured_name_len(&self) -> int {
        match self.name {
            Some(v) => v@.len() as int,
            None => 0,
        }
    }

    /// Size hint for the container this configuration assembles to: header
    /// length for the configured name plus both payload lengths, the forks'
    /// CRC fields excluded.
    pub fn hqx_len(&self) -> (r: usize)
        requires
            self.configured_name_len() <= 255,
            self.configured_name_len() + 22 + self.eff_data().len() + self.eff_resource().len()
                <= usize::MAX,
        ensures
            r == self.configured_name_len() + 22 + self.eff_data().len()
                + self.eff_resource().len(),
    {
        let n: usize = match &self.name {
            Some(v) => v.len(),
            None => 0,
        };
        let dl: usize = match &self.data {
            Some(v) => v.len(),
            None => 0,
        };
        let rl: usize = match &self.resource {
            Some(v) => v.len(),
            None => 0,
        };
        get_header_len(n) + dl + rl
    }
}

/// The big-endian bytes of a 16-bit value.
pub open spec fn be16(x: u16) -> Seq<u8> {
    seq![(x / 256) as u8, (x % 256) as u8]
}

/// The big-endian bytes of a 32-bit value.
pub open spec fn be32(x: u32) -> Seq<u8> {
    seq![
        (x / 0x1000000) as u8,
        ((x / 0x10000) % 0x100) as u8,
        ((x / 0x100) % 0x100) as u8,
        (x % 0x100) as u8,
    ]
}

/// The 16-bit value stored big-endian at index `i`.
pub open spec fn be16_val(s: Seq<u8>, i: int) -> u16 {
    ((s[i] as int) * 0x100 + (s[i + 1] as int)) as u16
}

/// The 32-bit value stored big-endian at index `i`.
pub open spec fn be32_val(s: Seq<u8>, i: int) -> u32 {
    ((s[i] as int) * 0x1000000 + (s[i + 1] as int) * 0x10000 + (s[i + 2] as int) * 0x100 + (s[i
        + 3] as int)) as u32
}

/// Length of the file name, read from the first byte of the container.
pub open spec fn name_len_of(s: Seq<u8>) -> int {
    s[0] as int
}

/// The header is complete and the name is NUL-terminated with no interior NUL.
pub open spec fn header_ok(s: Seq<u8>) -> bool {
    &&& s.len() >= 1
    &&& s.len() >= name_len_of(s) + 22
    &&& s[1 + name_len_of(s)] == 0
    &&& forall|i: int| 1 <= i < 1 + name_len_of(s) ==> s[i] != 0
}

pub open spec fn name_of(s: Seq<u8>) -> Seq<u8> {
    s.subrange(1, 1 + name_len_of(s))
}

pub open spec fn file_type_of(s: Seq<u8>) -> Seq<u8> {
    s.subrange(name_len_of(s) + 2, name_len_of(s) + 6)
}

pub open spec fn author_of(s: Seq<u8>) -> Seq<u8> {
    s.subrange(name_len_of(s) + 6, name_len_of(s) + 10)
}

pub open spec fn flags_of(s: Seq<u8>) -> Seq<u8> {
    s.subrange(name_len_of(s) + 10, name_len_of(s) + 12)
}

pub open spec fn data_len_of(s: Seq<u8>) -> u32 {
    be32_val(s, name_len_of(s) + 12)
}

pub open spec fn resource_len_of(s: Seq<u8>) -> u32 {
    be32_val(s, name_len_of(s) + 16)
}

pub open spec fn header_crc_of(s: Seq<u8>) -> u16 {
    be16_val(s, name_len_of(s) + 20)
}

/// The header bytes covered by the header CRC: everything before the CRC
/// field itself.
pub open spec fn header_pre_of(s: Seq<u8>) -> Seq<u8> {
    s.subrange(0, name_len_of(s) + 20)
}

/// First index of the data fork payload.
pub open spec fn data_start(s: Seq<u8>) -> int {
    name_len_of(s) + 22
}

pub open spec fn data_of(s: Seq<u8>) -> Seq<u8> {
    s.subrange(data_start(s), data_start(s) + data_len_of(s) as int)
}

/// Index just past the data payload, where its CRC field sits when present.
pub open spec fn data_crc_pos(s: Seq<u8>) -> int {
    data_start(s) + data_len_of(s) as int
}

/// The data fork CRC; a buffer exhausted before the field counts as zero.
pub open spec fn data_crc_of(s: Seq<u8>) -> u16 {
    if s.len() - data_crc_pos(s) >= 2 {
        be16_val(s, data_crc_pos(s))
    } else {
        0
    }
}

/// First index of the resource fork payload.
pub open spec fn resource_start(s: Seq<u8>) -> int {
    if s.len() - data_crc_pos(s) >= 2 {
        data_crc_pos(s) + 2
    } else {
        data_crc_pos(s)
    }
}

pub open spec fn resource_of(s: Seq<u8>) -> Seq<u8> {
    s.subrange(resource_start(s), resource_start(s) + resource_len_of(s) as int)
}

pub open spec fn resource_crc_pos(s: Seq<u8>) -> int {
    resource_start(s) + resource_len_of(s) as int
}

/// The resource fork CRC; a buffer exhausted before the field counts as zero.
pub open spec fn resource_crc_of(s: Seq<u8>) -> u16 {
    if s.len() - resource_crc_pos(s) >= 2 {
        be16_val(s, resource_crc_pos(s))
    } else {
        0
    }
}

/// The container parses: the header is complete and both fork payloads lie
/// within the buffer.
pub open spec fn parse_ok(s: Seq<u8>) -> bool {
    &&& header_ok(s)
    &&& s.len() >= data_start(s) + data_len_of(s) as int
    &&& s.len() >= resource_start(s) + resource_len_of(s) as int
}

/// The parsed view `h` holds exactly the fields that the buffer `s` encodes.
pub open spec fn ref_matches(h: HQXRef, s: Seq<u8>) -> bool {
    &&& h.hqx.vec@ == s
    &&& h.name_len as int == name_len_of(s)
    &&& h.name@ == name_of(s)
    &&& h.file_type@ == file_type_of(s)
    &&& h.author@ == author_of(s)
    &&& h.flags@ == flags_of(s)
    &&& h.data_len == data_len_of(s)
    &&& h.resource_len == resource_len_of(s)
    &&& h.hc == header_crc_of(s)
    &&& h.header_len as int == name_len_of(s) + 22
    &&& if data_len_of(s) > 0 {
        h.data_fork matches Some(f) && f.data@ == data_of(s) && f.crc == data_crc_of(s)
    } else {
        h.data_fork is None
    }
    &&& if resource_len_of(s) > 0 {
        h.resource_fork matches Some(f) && f.data@ == resource_of(s) && f.crc == resource_crc_of(
            s,
        )
    } else {
        h.resource_fork is None
    }
}

/// Copies `s[start..end]` into a fresh vector.
pub(crate) fn copy_range(s: &[u8], start: usize, end: usize) -> (r: Vec<u8>)
    requires
        start <= end <= s@.len(),
    ensures
        r@ == s@.subrange(start as int, end as int),
{
    let mut out: Vec<u8> = Vec::new();
    let mut i: usize = start;
    while i < end
        invariant
            start <= i <= end <= s@.len(),
            out@ == s@.subrange(start as int, i as int),
        decreases end - i,
    {
        out.push(s[i]);
        proof {
            assert(s@.subrange(start as int, i + 1) =~= s@.subrange(start as int, i as int).push(
                s@[i as int],
            ));
        }
        i = i + 1;
    }
    out
}

fn read_be16(s: &[u8], i: usize) -> (r: u16)
    requires
        i + 2 <= s@.len(),
    ensures
        r == be16_val(s@, i as int),
{
    (s[i] as u16) * 0x100 + (s[i + 1] as u16)
}

fn read_be32(s: &[u8], i: usize) -> (r: u32)
    requires
        i + 4 <= s@.len(),
    ensures
        r == be32_val(s@, i as int),
{
    (s[i] as u32) * 0x1000000 + (s[i + 1] as u32) * 0x10000 + (s[i + 2] as u32) * 0x100 + (s[i
        + 3] as u32)
}

impl HQX {
    pub fn new(vec: Vec<u8>) -> (r: HQX)
        ensures
            r.vec@ == vec@,
    {
        HQX { vec }
    }

    /// Parses the container buffer into a field-by-field view. A buffer that
    /// runs out of bytes mid-field, or whose name is not NUL-terminated, is
    /// rejected as `BadFormat` rather than aborting.
    pub fn borrow(&self) -> (r: Result<HQXRef, DecodeError>)
        ensures
            r is Ok <==> parse_ok(self.vec@),
            r matches Ok(h) ==> ref_matches(h, self.vec@),
            r is Err ==> r == Err::<HQXRef, DecodeError>(DecodeError::BadFormat),
    {
        let v = self.vec.as_slice();
        let len = v.len();
        if len < 1 {
            return Err(DecodeError::BadFormat);
        }
        let name_len = v[0];
        let n = name_len as usize;
        if len < n + 22 {
            return Err(DecodeError::BadFormat);
        }
        if v[1 + n] != 0 {
            return Err(DecodeError::BadFormat);
        }
        let mut i: usize = 1;
        while i < 1 + n
            invariant
                1 <= i <= 1 + n,
                n + 22 <= len == v@.len(),
                v@ == self.vec@,
                n as int == name_len_of(v@),
                forall|j: int| 1 <= j < i ==> v@[j] != 0,
            decreases 1 + n - i,
        {
            if v[i] == 0 {
                proof {
                    assert(!header_ok(self.vec@));
                }
                return Err(DecodeError::BadFormat);
            }
            i = i + 1;
        }
        let name = copy_range(v, 1, 1 + n);
        let file_type = copy_range(v, 2 + n, 6 + n);
        let author = copy_range(v, 6 + n, 10 + n);
        let flags = copy_range(v, 10 + n, 12 + n);
        let data_len = read_be32(v, 12 + n);
        let resource_len = read_be32(v, 16 + n);
        let hc = read_be16(v, 20 + n);
        let header_len = (n as u16) + 22;

        let mut pos: usize = n + 22;
        if data_len as u64 > (len - pos) as u64 {
            return Err(DecodeError::BadFormat);
        }
        let dl = data_len as usize;
        let data_bytes = copy_range(v, pos, pos + dl);
        pos = pos + dl;
        let dc: u16 = if len - pos >= 2 {
            let c = read_be16(v, pos);
            pos = pos + 2;
            c
        } else {
            0
        };
        let data_fork = if data_len > 0 {
            Some(Fork { data: data_bytes, crc: dc })
        } else {
            None
        };

        if resource_len as u64 > (len - pos) as u64 {
            return Err(DecodeError::BadFormat);
        }
        let rl = resource_len as usize;
        let resource_bytes = copy_range(v, pos, pos + rl);
        pos = pos + rl;
        let rc: u16 = if len - pos >= 2 {
            let c = read_be16(v, pos);
            pos = pos + 2;
            c
        } else {
            0
        };
        let resource_fork = if resource_len > 0 {
            Some(Fork { data: resource_bytes, crc: rc })
        } else {
            None
        };

        let backing = copy_range(v, 0, len);
        proof {
            let s = self.vec@;
            assert(backing@ =~= s);
            assert(name_len_of(s) == n as int);
            assert(header_ok(s));
            assert(parse_ok(s));
            assert(name@ =~= name_of(s));
            assert(file_type@ =~= file_type_of(s));
            assert(author@ =~= author_of(s));
            assert(flags@ =~= flags_of(s));
            assert(data_bytes@ =~= data_of(s));
            assert(resource_bytes@ =~= resource_of(s));
        }
        Ok(
            HQXRef {
                hqx: HQX { vec: backing },
                name_len,
                name,
                file_type,
                author,
                flags,
                data_len,
                resource_len,
                hc,
                header_len,
                data_fork,
                resource_fork,
            },
        )
    }
}

impl HQX {
    /// Assembles a container from a configuration; see `encode::binhex`.
    pub fn from_config(config: HQXConfig) -> (r: Result<HQX, EncodeError>)
        requires
            config.wf(),
        ensures
            r is Ok <==> config.eff_name().len() <= 255 && config.eff_data().len() <= u32::MAX
                && config.eff_resource().len() <= u32::MAX,
            r matches Ok(h) ==> h.vec@ == crate::encode::spec_assemble(
                config.eff_name(),
                config.eff_file_type(),
                config.eff_author(),
                config.eff_flags(),
                config.eff_data(),
                config.eff_resource(),
            ),
            config.eff_name().len() > 255 ==> r == Err::<HQX, EncodeError>(
                EncodeError::FileNameTooLong,
            ),
            config.eff_name().len() <= 255 && config.eff_data().len() > u32::MAX ==> r == Err::<
                HQX,
                EncodeError,
            >(EncodeError::DataTooLarge),
            config.eff_name().len() <= 255 && config.eff_data().len() <= u32::MAX
                && config.eff_resource().len() > u32::MAX ==> r == Err::<HQX, EncodeError>(
                EncodeError::ResourceTooLarge,
            ),
    {
        binhex(config)
    }
}

/// Length in bytes of the fixed-layout header for a name of `name_len` bytes:
/// name-length byte, name and its NUL, type, author, flags, the two fork
/// lengths, and the header CRC.
pub fn get_header_len(name_len: usize) -> (r: usize)
    requires
        name_len <= 255,
    ensures
        r == name_len + 22,
{
    1 + (name_len + 1) + 4 + 4 + 2 + 4 + 4 + 2
}

} // verus!
