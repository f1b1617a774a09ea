//! The three obfuscation keys, and finding the two general keys inside the
//! game's executable by the bytes each key starts with.
use vstd::prelude::*;

use crate::decoder::{general_keys_fit, KEY1_LEN, KEY2_LEN, KEY3_LEN};
use crate::error::DinkyError;

verus! {

/// The key material: two general keys and the dialogue-script key.
pub struct Keys {
    pub key1: Vec<u8>,
    pub key2: Vec<u8>,
    pub key3: Vec<u8>,
}

/// How far into the executable the search for the keys starts.
pub const KEY_SEARCH_START: usize = 4000000;

/// Whether the key sizes are those that decoding needs.
pub open spec fn keys_fit(key1: Seq<u8>, key2: Seq<u8>, key3: Seq<u8>) -> bool {
    general_keys_fit(key1, key2) && key3.len() >= KEY3_LEN
}

/// Whether `find` occurs in `data` at `i`.
pub open spec fn occurs_at(data: Seq<u8>, find: Seq<u8>, i: int) -> bool {
    0 <= i && i + find.len() <= data.len() && data.subrange(i, i + find.len()) == find
}

/// The first position at or after `i` at which `find` occurs in `data`.
pub open spec fn first_from(data: Seq<u8>, find: Seq<u8>, i: int) -> Option<int>
    decreases data.len() - i,
{
    if i < 0 || i >= data.len() || i + find.len() > data.len() {
        None
    } else if occurs_at(data, find, i) {
        Some(i)
    } else {
        first_from(data, find, i + 1)
    }
}

/// The first position at which `find` occurs in `data`, if any.
pub open spec fn first_occurrence(data: Seq<u8>, find: Seq<u8>) -> Option<int> {
    first_from(data, find, 0)
}

/// The `len` bytes of `data` that start where `find` first occurs.
pub open spec fn key_after(data: Seq<u8>, find: Seq<u8>, len: int) -> Option<Seq<u8>> {
    match first_occurrence(data, find) {
        Some(p) => if p + len <= data.len() {
            Some(data.subrange(p, p + len))
        } else {
            None
        },
        None => None,
    }
}

proof fn lemma_first_from(data: Seq<u8>, find: Seq<u8>, i: int)
    requires
        0 <= i,
    ensures
        first_from(data, find, i) matches Some(p) ==> occurs_at(data, find, p) && i <= p,
    decreases data.len() - i,
{
    if i < data.len() && i + find.len() <= data.len() && !occurs_at(data, find, i) {
        lemma_first_from(data, find, i + 1);
    }
}

fn matches_at(data: &[u8], find: &[u8], i: usize) -> (r: bool)
    requires
        i + find@.len() <= data@.len() <= usize::MAX,
    ensures
        r == occurs_at(data@, find@, i as int),
{
    let mut k: usize = 0;
    while k < find.len()
        invariant
            i + find@.len() <= data@.len() <= usize::MAX,
            k <= find@.len(),
            forall|j: int| 0 <= j < k ==> data@[i + j] == find@[j],
        decreases find@.len() - k,
    {
        if data[i + k] != find[k] {
            assert(data@.subrange(i as int, i + find@.len())[k as int] != find@[k as int]);
            return false;
        }
        k = k + 1;
    }
    assert(data@.subrange(i as int, i + find@.len()) =~= find@);
    true
}

/// The first position at which `find` occurs in `data`.
pub fn find_pos(data: &[u8], find: &[u8]) -> (r: Option<usize>)
    requires
        find@.len() > 0,
    ensures
        match r {
            Some(p) => first_occurrence(data@, find@) == Some(p as int),
            None => first_occurrence(data@, find@) is None,
        },
{
    if find.len() > data.len() {
        return None;
    }
    let last = data.len() - find.len();
    let mut i: usize = 0;
    while i <= last
        invariant
            last + find@.len() == data@.len() <= usize::MAX,
            find@.len() > 0,
            first_occurrence(data@, find@) == first_from(data@, find@, i as int),
        decreases last + 1 - i,
    {
        if matches_at(data, find, i) {
            return Some(i);
        }
        if i == last {
            assert(first_from(data@, find@, i + 1) is None);
            return None;
        }
        i = i + 1;
    }
    None
}

/// The `len` bytes of the executable that start with `key_data`. Fails with
/// `Key` when the bytes are not found or the key would run past the end.
pub fn read_key(exe_data: &[u8], key_data: &[u8], len: usize) -> (r: Result<Vec<u8>, DinkyError>)
    requires
        key_data@.len() > 0,
    ensures
        match key_after(exe_data@, key_data@, len as int) {
            Some(k) => r matches Ok(v) && v@ == k,
            None => r == Err::<Vec<u8>, DinkyError>(DinkyError::Key),
        },
{
    let pos = match find_pos(exe_data, key_data) {
        Some(p) => {
            proof {
                lemma_first_from(exe_data@, key_data@, 0);
            }
            p
        },
        None => {
            return Err(DinkyError::Key);
        },
    };
    if len > exe_data.len() - pos {
        return Err(DinkyError::Key);
    }
    let region = vstd::slice::slice_subrange(exe_data, pos, pos + len);
    Ok(vstd::slice::slice_to_vec(region))
}

/// The bytes that the first general key starts with.
pub const KEY1_START: [u8; 16] = [
    0xF7,
    0xEC,
    0x7E,
    0xB6,
    0xE3,
    0x42,
    0x5C,
    0x36,
    0x55,
    0x5E,
    0xA2,
    0x97,
    0xC0,
    0x1E,
    0xBE,
    0x2C,
];

/// The bytes that the second general key starts with.
pub const KEY2_START: [u8; 16] = [
    0xD5,
    0x7D,
    0xFB,
    0x4D,
    0x51,
    0xF5,
    0x5E,
    0xF4,
    0xAA,
    0x0B,
    0x8A,
    0x7E,
    0x00,
    0x8D,
    0xCB,
    0x66,
];

/// The part of the executable that is searched for keys.
pub open spec fn search_region(exe: Seq<u8>) -> Seq<u8> {
    if exe.len() <= KEY_SEARCH_START {
        Seq::empty()
    } else {
        exe.skip(KEY_SEARCH_START as int)
    }
}

impl Keys {
    /// Bundles the keys after checking their sizes; `Key` when a size is wrong.
    pub fn new(key1: Vec<u8>, key2: Vec<u8>, key3: Vec<u8>) -> (r: Result<Keys, DinkyError>)
        ensures
            r is Ok <==> keys_fit(key1@, key2@, key3@),
            r matches Ok(k) ==> k.key1@ == key1@ && k.key2@ == key2@ && k.key3@ == key3@,
            r matches Err(e) ==> e == DinkyError::Key,
    {
        if key1.len() != KEY1_LEN || key2.len() != KEY2_LEN || key3.len() < KEY3_LEN {
            return Err(DinkyError::Key);
        }
        Ok(Keys { key1, key2, key3 })
    }

    /// Finds the two general keys in the executable's bytes, searching past
    /// its first four million bytes. Fails with `Key` when either is missing.
    pub fn extract_from_exe(exe_data: &[u8]) -> (r: Result<(Vec<u8>, Vec<u8>), DinkyError>)
        ensures
            match (
                key_after(search_region(exe_data@), KEY1_START@, KEY1_LEN as int),
                key_after(search_region(exe_data@), KEY2_START@, KEY2_LEN as int),
            ) {
                (Some(k1), Some(k2)) => r matches Ok((a, b)) && a@ == k1 && b@ == k2,
                _ => r == Err::<(Vec<u8>, Vec<u8>), DinkyError>(DinkyError::Key),
            },
    {
        let region = if exe_data.len() <= KEY_SEARCH_START {
            vstd::slice::slice_subrange(exe_data, 0, 0)
        } else {
            vstd::slice::slice_subrange(exe_data, KEY_SEARCH_START, exe_data.len())
        };
        assert(region@ =~= search_region(exe_data@));
        let start1 = KEY1_START;
        let start2 = KEY2_START;
        let key1 = match read_key(region, &start1, KEY1_LEN) {
            Ok(k) => k,
            Err(e) => {
                return Err(e);
            },
        };
        let key2 = match read_key(region, &start2, KEY2_LEN) {
            Ok(k) => k,
            Err(e) => {
                return Err(e);
            },
        };
        Ok((key1, key2))
    }
}

} // verus!
