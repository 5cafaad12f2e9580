//! What the caller of a session was asked to do.

use vstd::prelude::*;

verus! {

/// The command an archive tool was started with.  The decoder does not read
/// it; it travels with a session for the code around the decoder.
pub struct CommandData {
    /// The command letters.
    pub command: Vec<char>,
    /// The archive to read.
    pub arc_name: String,
    /// Where unpacked files go.
    pub extr_path: String,
    /// Where temporary files go.
    pub temp_path: String,
    /// Whether the password was typed in by hand.
    pub manual_password: bool,
    /// Worker threads the caller may use.
    pub threads: usize,
    /// Whether large memory pages were asked for.
    pub use_large_pages: bool,
}

} // verus!
