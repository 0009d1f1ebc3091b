use vstd::prelude::*;

use crate::copy_range;
use crate::error::DecodeError;

verus! {

/// The line that announces a BinHex stream, up to its version number:
/// `"(This file must be converted with BinHex"`.
pub open spec fn marker_prefix() -> Seq<u8> {
    seq![
        40u8,
        84,
        104,
        105,
        115,
        32,
        102,
        105,
        108,
        101,
        32,
        109,
        117,
        115,
        116,
        32,
        98,
        101,
        32,
        99,
        111,
        110,
        118,
        101,
        114,
        116,
        101,
        100,
        32,
        119,
        105,
        116,
        104,
        32,
        66,
        105,
        110,
        72,
        101,
        120,
    ]
}

/// The marker line starts at index `i` of `s`.
pub open spec fn is_marker_at(s: Seq<u8>, i: int) -> bool {
    i + 40 <= s.len() && s.subrange(i, i + 40) == marker_prefix()
}

/// Index of the first occurrence of the marker line at or after `i`.
pub open spec fn find_marker(s: Seq<u8>, i: int) -> Option<int>
    decreases s.len() - i,
{
    if i + 40 > s.len() {
        None
    } else if is_marker_at(s, i) {
        Some(i)
    } else {
        find_marker(s, i + 1)
    }
}

/// Index of the first occurrence of byte `b` at or after `i`.
pub open spec fn find_byte(s: Seq<u8>, b: u8, i: int) -> Option<int>
    decreases s.len() - i,
{
    if i >= s.len() {
        None
    } else if s[i] == b {
        Some(i)
    } else {
        find_byte(s, b, i + 1)
    }
}

/// The encoded payload of a BinHex stream: the bytes between the first colon
/// after the marker line and the next colon, newlines included. `None` when
/// the marker or either colon is missing.
pub open spec fn spec_parse(s: Seq<u8>) -> Option<Seq<u8>> {
    match find_marker(s, 0) {
        None => None,
        Some(m) => match find_byte(s, 58, m) {
            None => None,
            Some(c1) => match find_byte(s, 58, c1 + 1) {
                None => None,
                Some(c2) => Some(s.subrange(c1 + 1, c2)),
            },
        },
    }
}

pub(crate) fn marker_prefix_bytes() -> (r: Vec<u8>)
    ensures
        r@ == marker_prefix(),
        r@.len() == 40,
{
    let mut v: Vec<u8> = Vec::new();
    v.push(40);
    v.push(84);
    v.push(104);
    v.push(105);
    v.push(115);
    v.push(32);
    v.push(102);
    v.push(105);
    v.push(108);
    v.push(101);
    v.push(32);
    v.push(109);
    v.push(117);
    v.push(115);
    v.push(116);
    v.push(32);
    v.push(98);
    v.push(101);
    v.push(32);
    v.push(99);
    v.push(111);
    v.push(110);
    v.push(118);
    v.push(101);
    v.push(114);
    v.push(116);
    v.push(101);
    v.push(100);
    v.push(32);
    v.push(119);
    v.push(105);
    v.push(116);
    v.push(104);
    v.push(32);
    v.push(66);
    v.push(105);
    v.push(110);
    v.push(72);
    v.push(101);
    v.push(120);
    proof {
        assert(v@ =~= marker_prefix());
    }
    v
}

fn marker_at(s: &[u8], j: usize, marker: &Vec<u8>) -> (r: bool)
    requires
        j + 40 <= s@.len(),
        marker@ == marker_prefix(),
    ensures
        r == is_marker_at(s@, j as int),
{
    let len = s.len();
    let mut k: usize = 0;
    while k < 40
        invariant
            k <= 40,
            j + 40 <= len == s@.len(),
            marker@ == marker_prefix(),
            forall|l: int| 0 <= l < k ==> s@[j + l] == marker_prefix()[l],
        decreases 40 - k,
    {
        if s[j + k] != marker[k] {
            proof {
                assert(s@.subrange(j as int, j + 40)[k as int] == s@[j + k]);
                assert(s@.subrange(j as int, j + 40) != marker_prefix());
            }
            return false;
        }
        k = k + 1;
    }
    proof {
        assert(s@.subrange(j as int, j + 40) =~= marker_prefix());
    }
    true
}

fn find_marker_from_start(s: &[u8], marker: &Vec<u8>) -> (r: Option<usize>)
    requires
        marker@ == marker_prefix(),
    ensures
        r matches Some(m) ==> find_marker(s@, 0) == Some(m as int) && m + 40 <= s@.len(),
        r is None ==> find_marker(s@, 0) is None,
{
    let len = s.len();
    if len < 40 {
        return None;
    }
    let mut j: usize = 0;
    while j <= len - 40
        invariant
            40 <= len == s@.len(),
            j <= len - 40 + 1,
            marker@ == marker_prefix(),
            find_marker(s@, 0) == find_marker(s@, j as int),
        decreases len - j,
    {
        if marker_at(s, j, marker) {
            return Some(j);
        }
        j = j + 1;
    }
    None
}

fn find_byte_from(s: &[u8], b: u8, start: usize) -> (r: Option<usize>)
    requires
        start <= s@.len(),
    ensures
        r matches Some(c) ==> find_byte(s@, b, start as int) == Some(c as int) && start <= c
            < s@.len(),
        r is None ==> find_byte(s@, b, start as int) is None,
{
    let mut i: usize = start;
    while i < s.len()
        invariant
            start <= i <= s@.len(),
            find_byte(s@, b, start as int) == find_byte(s@, b, i as int),
        decreases s@.len() - i,
    {
        if s[i] == b {
            return Some(i);
        }
        i = i + 1;
    }
    None
}

/// Locates the encoded payload: the marker line, then the first colon after
/// it, then everything up to the next colon. Returns the payload bytes, or
/// `BadFormat` when marker or colons are missing.
pub fn parse(i: &[u8]) -> (r: Result<Vec<u8>, DecodeError>)
    ensures
        spec_parse(i@) matches Some(p) ==> r matches Ok(v) && v@ == p,
        spec_parse(i@) is None ==> r == Err::<Vec<u8>, DecodeError>(DecodeError::BadFormat),
{
    let marker = marker_prefix_bytes();
    let ilen = i.len();
    let m = match find_marker_from_start(i, &marker) {
        Some(m) => m,
        None => {
            return Err(DecodeError::BadFormat);
        },
    };
    let c1 = match find_byte_from(i, 58, m) {
        Some(c) => c,
        None => {
            return Err(DecodeError::BadFormat);
        },
    };
    proof {
        assert(c1 < ilen);
    }
    let c2 = match find_byte_from(i, 58, c1 + 1) {
        Some(c) => c,
        None => {
            return Err(DecodeError::BadFormat);
        },
    };
    Ok(copy_range(i, c1 + 1, c2))
}

} // verus!
