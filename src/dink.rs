//! The header of a compiled game script ("dink"): two markers to check and
//! the size of the script's name.
use vstd::prelude::*;

use crate::easy_br::{fits, read_u32_le, u32_le};
use crate::error::DinkyError;
use crate::yack::{decimal, decimal_string, strings_view};

verus! {

/// The marker that opens the header block.
pub const HEADER_START_MARKER: u32 = 0x7F46_A125;

/// The marker before the name.
pub const NAME_START_MARKER: u32 = 0x16F9_4B62;

/// The name size that a script's header gives, when both markers hold.
/// Layout: start marker, block size, header marker, two words and a half
/// word not yet understood, name marker, name size.
pub open spec fn dink_name_size(b: Seq<u8>) -> Option<int> {
    if !fits(b, 0, 30) || u32_le(b, 8) != HEADER_START_MARKER || u32_le(b, 22) != NAME_START_MARKER {
        None
    } else {
        Some(u32_le(b, 26))
    }
}

/// Reads a script header and reports the name size, in decimal.
pub fn read_dink(data: &Vec<u8>) -> (r: Result<Vec<String>, DinkyError>)
    ensures
        match dink_name_size(data@) {
            Some(n) => r matches Ok(v) && strings_view(v@) == seq![decimal(n as nat)],
            None => r == Err::<Vec<String>, DinkyError>(DinkyError::Format),
        },
{
    let b = data.as_slice();
    if b.len() < 30 {
        return Err(DinkyError::Format);
    }
    let header = read_u32_le(b, 8);
    let name_marker = read_u32_le(b, 22);
    let name_size = read_u32_le(b, 26);
    match (header, name_marker, name_size) {
        (Some(h), Some(m), Some(n)) => {
            if h != HEADER_START_MARKER || m != NAME_START_MARKER {
                return Err(DinkyError::Format);
            }
            let mut result: Vec<String> = Vec::new();
            result.push(decimal_string(n));
            assert(strings_view(result@) =~= seq![decimal(n as nat)]);
            Ok(result)
        },
        _ => Err(DinkyError::Format),
    }
}

} // verus!
