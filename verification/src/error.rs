use crate::ben::FormatError;
use vstd::prelude::*;

verus! {

/// What can go wrong between reading a descriptor and holding a verified piece.
#[derive(Clone, Copy, Debug, PartialEq, Eq)]
pub enum Fault {
    /// Malformed bytes, or bytes of the wrong shape.
    Format(FormatError),
    /// The stream failed or ended early.
    Network,
    /// The peer sent something other than what the exchange expects.
    Protocol,
    /// The bytes of a piece do not hash to its fingerprint.
    Integrity,
    /// A piece index beyond the last piece.
    Index,
}

} // verus!
