//! The two XOR layers that hide archive bytes.
use vstd::prelude::*;

use crate::error::DinkyError;

verus! {

/// Length of the first general key.
pub const KEY1_LEN: usize = 65536;

/// Length of the second general key.
pub const KEY2_LEN: usize = 256;

/// Least length of the dialogue-script key; only its first 1024 bytes are used.
pub const KEY3_LEN: usize = 1024;

/// Whether the two general keys have exactly their declared sizes.
pub open spec fn general_keys_fit(key1: Seq<u8>, key2: Seq<u8>) -> bool {
    key1.len() == KEY1_LEN && key2.len() == KEY2_LEN
}

/// The rolling 16-bit index before the byte at `i` of a buffer of length `len`.
pub open spec fn roll(len: nat, key2: Seq<u8>, i: nat) -> int
    decreases i,
{
    if i == 0 {
        (len as int + 120) % 65536
    } else {
        let x = roll(len, key2, (i - 1) as nat);
        (x + key2[x % 256]) % 65536
    }
}

/// The keystream byte at position `i` of a buffer of length `len`.
pub open spec fn keystream(len: nat, key1: Seq<u8>, key2: Seq<u8>, i: nat) -> u8 {
    let x = roll(len, key2, i);
    key1[x] ^ key2[(x + 120) % 256]
}

/// The buffer after the general XOR layer.
pub open spec fn decoded(data: Seq<u8>, key1: Seq<u8>, key2: Seq<u8>) -> Seq<u8> {
    Seq::new(data.len(), |i: int| data[i] ^ keystream(data.len(), key1, key2, i as nat))
}

/// The position in the script key used for byte `i` of a script whose
/// file name is `name_len` bytes long.
pub open spec fn script_key_index(name_len: int, i: int) -> int {
    (i + (name_len - 5)) % 1024
}

/// The buffer after the dialogue-script XOR layer.
pub open spec fn script_decoded(data: Seq<u8>, key3: Seq<u8>, name_len: int) -> Seq<u8> {
    Seq::new(data.len(), |i: int| data[i] ^ key3[script_key_index(name_len, i)])
}

proof fn lemma_roll_bounded(len: nat, key2: Seq<u8>, i: nat)
    ensures
        0 <= roll(len, key2, i) < 65536,
    decreases i,
{
    if i > 0 {
        lemma_roll_bounded(len, key2, (i - 1) as nat);
    }
}

proof fn lemma_xor_twice(a: u8, k: u8)
    ensures
        (a ^ k) ^ k == a,
{
    assert((a ^ k) ^ k == a) by (bit_vector);
}

/// Removes the general XOR layer in place. Fails with `Key` when the keys
/// do not have exactly their declared sizes, leaving the data untouched.
pub fn decode_data(data: &mut Vec<u8>, key1: &Vec<u8>, key2: &Vec<u8>) -> (r: Result<(), DinkyError>)
    ensures
        r is Ok <==> general_keys_fit(key1@, key2@),
        r is Err ==> r == Err::<(), DinkyError>(DinkyError::Key) && final(data)@ == old(data)@,
        r is Ok ==> final(data)@ == decoded(old(data)@, key1@, key2@),
{
    if key1.len() != KEY1_LEN || key2.len() != KEY2_LEN {
        return Err(DinkyError::Key);
    }
    let n = data.len();
    let mut x: usize = (n % 65536 + 120) % 65536;
    let mut i: usize = 0;
    proof {
        assert(x == roll(n as nat, key2@, 0));
    }
    while i < n
        invariant
            general_keys_fit(key1@, key2@),
            n == old(data)@.len(),
            data@.len() == n,
            0 <= i <= n,
            x == roll(n as nat, key2@, i as nat),
            x < 65536,
            forall|j: int| 0 <= j < i ==> data@[j] == decoded(old(data)@, key1@, key2@)[j],
            forall|j: int| i <= j < n ==> data@[j] == old(data)@[j],
        decreases n - i,
    {
        let k: u8 = key1[x] ^ key2[(x + 120) % 256];
        let b: u8 = data[i] ^ k;
        data[i] = b;
        x = (x + key2[x % 256] as usize) % 65536;
        i = i + 1;
    }
    proof {
        assert(data@ =~= decoded(old(data)@, key1@, key2@));
    }
    Ok(())
}

/// Removes the dialogue-script XOR layer in place; the key position depends
/// on the byte length of the script's file name, which ends in a five-byte
/// extension. Fails with `Key` when the key is shorter than 1024 bytes,
/// leaving the data untouched.
pub fn decode_yack_data(data: &mut Vec<u8>, key: &Vec<u8>, filename: &str) -> (r: Result<(), DinkyError>)
    requires
        filename.len() >= 5,
    ensures
        r is Ok <==> key@.len() >= KEY3_LEN,
        r is Err ==> r == Err::<(), DinkyError>(DinkyError::Key) && final(data)@ == old(data)@,
        r is Ok ==> final(data)@ == script_decoded(old(data)@, key@, filename.len() as int),
{
    if key.len() < KEY3_LEN {
        return Err(DinkyError::Key);
    }
    let name_len = filename.len();
    let base: usize = (name_len - 5) % 1024;
    let n = data.len();
    let mut i: usize = 0;
    while i < n
        invariant
            key@.len() >= KEY3_LEN,
            n == old(data)@.len(),
            data@.len() == n,
            0 <= i <= n,
            base == (name_len as int - 5) % 1024,
            name_len == filename.len(),
            forall|j: int| 0 <= j < i ==> data@[j] == script_decoded(old(data)@, key@, name_len as int)[j],
            forall|j: int| i <= j < n ==> data@[j] == old(data)@[j],
        decreases n - i,
    {
        let idx: usize = (i % 1024 + base) % 1024;
        assert(idx == script_key_index(name_len as int, i as int));
        let b: u8 = data[i] ^ key[idx];
        data[i] = b;
        i = i + 1;
    }
    proof {
        assert(data@ =~= script_decoded(old(data)@, key@, name_len as int));
    }
    Ok(())
}

/// The general layer is its own inverse: decoding twice with the same keys
/// gives back the bytes it started from.
pub proof fn lemma_decode_involution(data: Seq<u8>, key1: Seq<u8>, key2: Seq<u8>)
    requires
        general_keys_fit(key1, key2),
    ensures
        decoded(decoded(data, key1, key2), key1, key2) == data,
{
    let once = decoded(data, key1, key2);
    assert forall|i: int| 0 <= i < data.len() implies decoded(once, key1, key2)[i] == data[i] by {
        lemma_roll_bounded(data.len(), key2, i as nat);
        lemma_xor_twice(data[i], keystream(data.len(), key1, key2, i as nat));
    }
    assert(decoded(once, key1, key2) =~= data);
}

/// The dialogue-script layer is its own inverse for a fixed key and name length.
pub proof fn lemma_script_decode_involution(data: Seq<u8>, key3: Seq<u8>, name_len: int)
    requires
        key3.len() >= KEY3_LEN,
    ensures
        script_decoded(script_decoded(data, key3, name_len), key3, name_len) == data,
{
    let once = script_decoded(data, key3, name_len);
    assert forall|i: int| 0 <= i < data.len() implies script_decoded(once, key3, name_len)[i] == data[i] by {
        lemma_xor_twice(data[i], key3[script_key_index(name_len, i)]);
    }
    assert(script_decoded(once, key3, name_len) =~= data);
}

} // verus!
