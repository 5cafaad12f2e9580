//! Decoder for an adaptive-Huffman and LZ77 bitstream.
//!
//! A session turns a compressed byte sequence into the declared number of
//! output bytes.  It is built from a bit reader ([`BitInput`]), a canonical
//! prefix-code decoder ([`decode_symbol`]), a self-adjusting symbol table
//! ([`AdaptiveSymbolTable`]), a circular history window ([`OutputWindow`]) and
//! the per-symbol state machine that ties them together ([`Unpack`]).
//!
//! Every executable function carries a contract over a mathematical model of
//! the session, and the model's laws are proved as public lemmas.

pub mod error;
pub mod command;
pub mod bits;
pub mod codes;
pub mod table;
pub mod window;
pub mod unpack;

pub use crate::bits::{BitInput, BitState};
pub use crate::command::CommandData;
pub use crate::codes::{decode_symbol, CodeWord};
pub use crate::error::UnpackError;
pub use crate::table::{AdaptiveSymbolTable, TableState};
pub use crate::unpack::{unpack_loop, unpack_rar_file, DecoderMode, Unpack, UnpackFailure, UnpackState};
pub use crate::window::{OutputWindow, WindowState};
