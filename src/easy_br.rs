//! Positional little-endian reads over a byte buffer. Every read takes the
//! position to read at and leaves no cursor behind, so a lookup elsewhere
//! in the buffer never disturbs the caller's position.
use vstd::prelude::*;
use vstd::utf8::{decode_utf8, valid_utf8};

verus! {

/// The little-endian 16-bit value at `p`.
pub open spec fn u16_le(b: Seq<u8>, p: int) -> int {
    b[p] + 256 * b[p + 1]
}

/// The little-endian 32-bit value at `p`.
pub open spec fn u32_le(b: Seq<u8>, p: int) -> int {
    b[p] + 256 * b[p + 1] + 65536 * b[p + 2] + 16777216 * b[p + 3]
}

/// Whether `n` bytes starting at `p` lie inside the buffer.
pub open spec fn fits(b: Seq<u8>, p: int, n: int) -> bool {
    0 <= p && p + n <= b.len()
}

/// The position of the first zero byte at or after `p`, if there is one.
pub open spec fn nul_from(b: Seq<u8>, p: int) -> Option<int>
    decreases b.len() - p,
{
    if p < 0 || p >= b.len() {
        None
    } else if b[p] == 0 {
        Some(p)
    } else {
        nul_from(b, p + 1)
    }
}

/// The characters of the zero-terminated UTF-8 string that starts at `p`;
/// `None` when no terminator follows or the bytes are not UTF-8.
pub open spec fn text_at(b: Seq<u8>, p: int) -> Option<Seq<char>> {
    match nul_from(b, p) {
        Some(e) => if valid_utf8(b.subrange(p, e)) {
            Some(decode_utf8(b.subrange(p, e)))
        } else {
            None
        },
        None => None,
    }
}

pub proof fn lemma_nul_from_range(b: Seq<u8>, p: int)
    ensures
        nul_from(b, p) matches Some(e) ==> 0 <= p <= e < b.len() && b[e] == 0
            && forall|k: int| p <= k < e ==> b[k] != 0,
    decreases b.len() - p,
{
    if 0 <= p < b.len() && b[p] != 0 {
        lemma_nul_from_range(b, p + 1);
    }
}

pub fn read_u16_le(b: &[u8], p: usize) -> (r: Option<u16>)
    ensures
        match r {
            Some(v) => fits(b@, p as int, 2) && v as int == u16_le(b@, p as int),
            None => !fits(b@, p as int, 2),
        },
{
    if p >= b.len() || b.len() - p < 2 {
        return None;
    }
    let v: u16 = b[p] as u16 + 256 * (b[p + 1] as u16);
    Some(v)
}

pub fn read_u32_le(b: &[u8], p: usize) -> (r: Option<u32>)
    ensures
        match r {
            Some(v) => fits(b@, p as int, 4) && v as int == u32_le(b@, p as int),
            None => !fits(b@, p as int, 4),
        },
{
    if p >= b.len() || b.len() - p < 4 {
        return None;
    }
    let v: u32 = b[p] as u32 + 256 * (b[p + 1] as u32) + 65536 * (b[p + 2] as u32) + 16777216 * (
    b[p + 3] as u32);
    Some(v)
}

/// Relies on std::str::from_utf8: it succeeds exactly on valid UTF-8 and
/// then holds the decoded characters.
#[verifier::external_body]
fn utf8_text(b: &[u8]) -> (r: Option<String>)
    ensures
        r is Some <==> valid_utf8(b@),
        r matches Some(s) ==> s@ == decode_utf8(b@),
{
    match std::str::from_utf8(b) {
        Ok(s) => Some(s.to_string()),
        Err(_) => None,
    }
}

/// Reads the zero-terminated string at `p`, returning it with the position
/// just past its terminator.
pub fn read_cstring(b: &[u8], p: usize) -> (r: Option<(String, usize)>)
    ensures
        match r {
            Some((s, next)) => text_at(b@, p as int) == Some(s@) && nul_from(b@, p as int) == Some(
                next - 1,
            ),
            None => text_at(b@, p as int) is None,
        },
{
    let mut e: usize = p;
    while e < b.len() && b[e] != 0
        invariant
            p <= e,
            nul_from(b@, p as int) == nul_from(b@, e as int),
        decreases b@.len() - e,
    {
        e = e + 1;
    }
    if e >= b.len() {
        return None;
    }
    proof {
        lemma_nul_from_range(b@, p as int);
    }
    let bytes = vstd::slice::slice_subrange(b, p, e);
    match utf8_text(bytes) {
        Some(s) => Some((s, e + 1)),
        None => None,
    }
}

} // verus!
