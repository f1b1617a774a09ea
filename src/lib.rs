//! Reading the encrypted "ggpack" game archives: the keyed XOR stream
//! cipher, the self-describing value container used for the archive
//! directory and many data files, and a decompiler for the dialogue
//! bytecode ("yack") stored inside the archives.
use vstd::prelude::*;

pub mod decoder;
pub mod dink;
pub mod directory;
pub mod easy_br;
pub mod error;
pub mod ggpack;
pub mod keys;
pub mod ktx_decompressor;
pub mod number;
pub mod reader;
pub mod yack;

verus! {

} // verus!
