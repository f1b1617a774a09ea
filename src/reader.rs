//! Reading an archive held whole in memory: its decoded directory bytes and
//! the strings of a container's string table.
use vstd::prelude::*;

use crate::decoder::{decoded, general_keys_fit};
use crate::directory::{offset_table, offsets_view};
use crate::easy_br::{fits, read_cstring, text_at, u32_le};
use crate::error::DinkyError;
use crate::ggpack::{decode_at, read_header};
use crate::keys::Keys;
use crate::yack::strings_view;

verus! {

/// The archive's directory bytes with the general layer removed: the
/// header's first word gives their offset, its second their size.
pub fn read_root(pack: &[u8], keys: &Keys) -> (r: Result<Vec<u8>, DinkyError>)
    ensures
        !fits(pack@, 0, 8) ==> r == Err::<Vec<u8>, DinkyError>(DinkyError::Format),
        fits(pack@, 0, 8) ==> ({
            let (o, n) = (u32_le(pack@, 0), u32_le(pack@, 4));
            &&& !fits(pack@, o, n) ==> r == Err::<Vec<u8>, DinkyError>(DinkyError::Format)
            &&& fits(pack@, o, n) && !general_keys_fit(keys.key1@, keys.key2@) ==> r == Err::<
                Vec<u8>,
                DinkyError,
            >(DinkyError::Key)
            &&& fits(pack@, o, n) && general_keys_fit(keys.key1@, keys.key2@) ==> (r matches Ok(v)
                && v@ == decoded(pack@.subrange(o, o + n), keys.key1@, keys.key2@))
        }),
{
    let (offset, size) = match read_header(pack) {
        Ok(h) => h,
        Err(e) => {
            return Err(e);
        },
    };
    decode_at(pack, keys, offset, size)
}

/// The strings at the given offsets, in order.
pub open spec fn texts_at(b: Seq<u8>, offs: Seq<int>) -> Option<Seq<Seq<char>>>
    decreases offs.len(),
{
    if offs.len() == 0 {
        Some(Seq::empty())
    } else {
        match (texts_at(b, offs.drop_last()), text_at(b, offs.last())) {
            (Some(ts), Some(t)) => Some(ts.push(t)),
            _ => None,
        }
    }
}

/// Every string of a container's string table, in table order.
pub open spec fn table_strings(b: Seq<u8>) -> Option<Seq<Seq<char>>> {
    match offset_table(b) {
        Some(offs) => texts_at(b, offs),
        None => None,
    }
}

/// Reads the strings of the string table whose offsets are given.
pub fn read_components(b: &[u8], offsets: &Vec<u32>) -> (r: Result<Vec<String>, DinkyError>)
    ensures
        match texts_at(b@, offsets_view(offsets@)) {
            Some(ts) => r matches Ok(v) && strings_view(v@) == ts,
            None => r == Err::<Vec<String>, DinkyError>(DinkyError::Format),
        },
{
    let ghost ov = offsets_view(offsets@);
    let mut out: Vec<String> = Vec::new();
    let mut i: usize = 0;
    assert(ov.take(0) =~= Seq::<int>::empty());
    assert(strings_view(out@) =~= Seq::<Seq<char>>::empty());
    while i < offsets.len()
        invariant
            ov == offsets_view(offsets@),
            i <= offsets@.len(),
            texts_at(b@, ov.take(i as int)) == Some(strings_view(out@)),
        decreases offsets@.len() - i,
    {
        assert(ov.take(i + 1).drop_last() =~= ov.take(i as int));
        match read_cstring(b, offsets[i] as usize) {
            Some((s, _)) => {
                assert(strings_view(out@.push(s)) =~= strings_view(out@).push(s@));
                out.push(s);
            },
            None => {
                proof {
                    lemma_texts_fail(b@, ov, (i + 1) as nat);
                }
                return Err(DinkyError::Format);
            },
        }
        i = i + 1;
    }
    assert(ov.take(offsets@.len() as int) =~= ov);
    Ok(out)
}

proof fn lemma_texts_fail(b: Seq<u8>, offs: Seq<int>, k: nat)
    requires
        0 < k <= offs.len(),
        texts_at(b, offs.take(k as int)) is None,
    ensures
        texts_at(b, offs) is None,
    decreases offs.len() - k,
{
    if k == offs.len() {
        assert(offs.take(k as int) =~= offs);
    } else {
        assert(offs.take(k + 1 as int).drop_last() =~= offs.take(k as int));
        lemma_texts_fail(b, offs, k + 1);
    }
}

/// All strings of a container's string table, after checking the magic
/// and the table kind.
pub fn read_metadata(data: &Vec<u8>) -> (r: Result<Vec<String>, DinkyError>)
    ensures
        match table_strings(data@) {
            Some(ts) => r matches Ok(v) && strings_view(v@) == ts,
            None => r == Err::<Vec<String>, DinkyError>(DinkyError::Format),
        },
{
    let b = data.as_slice();
    let offsets = match crate::directory::read_offsets(b) {
        Ok(o) => o,
        Err(e) => {
            return Err(e);
        },
    };
    read_components(b, &offsets)
}

} // verus!
