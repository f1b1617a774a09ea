use vstd::prelude::*;

verus! {

/// The failures of the library's decoding steps.
#[derive(Debug, Clone, Copy, PartialEq, Eq, Structural)]
pub enum DinkyError {
    /// A binary layout invariant does not hold: bad magic, unknown tag,
    /// wrong end marker, an index out of range, truncated data, or text
    /// that is not UTF-8.
    Format,
    /// No archive entry, or no expected dictionary field, was found.
    NotFound,
    /// Obfuscation key material is missing or has the wrong size.
    Key,
}

} // verus!
