//! The texture-decompression capability that inflated texture payloads are
//! handed to. It is implemented outside the library, by a backend chosen
//! when the program is built.
use vstd::prelude::*;

verus! {

/// Turns an inflated KTX texture container into encoded image bytes,
/// appended to `output_texture_data`.
pub trait KTXDecompressor {
    fn decompress_ktx(&self, data: &Vec<u8>, output_texture_data: &mut Vec<u8>);
}

} // verus!
