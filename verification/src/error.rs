//! The ways a decoding step can fail.

use vstd::prelude::*;

verus! {

/// Why a decoding step was refused.  A refused step leaves the session as it
/// was, so the output produced before it stays valid.
#[derive(Clone, Copy, Debug, PartialEq, Eq, Structural)]
pub enum UnpackError {
    /// The compressed source ran out before the required bits were available.
    BitstreamExhausted,
    /// A back-reference had distance zero or reached behind the history held
    /// by the window.
    InvalidBackReference,
    /// A code table produced an index outside the table or outside the
    /// 256-symbol alphabet.
    CorruptTable,
    /// An emission would produce more bytes than the session still owes.
    OutputOverrun,
}

} // verus!
