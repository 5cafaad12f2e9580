//! Canonical prefix codes, decoded by a search over cumulative thresholds.
//!
//! A code table is a pair of sequences.  `boundary[i]` is the first lookahead
//! value that no code of the `i`-th length class reaches; `base[n]` is the
//! symbol of the first code that is `n` bits long.

use vstd::prelude::*;
use crate::error::UnpackError;

verus! {

/// Number of symbols a code may name.
pub const ALPHABET_SIZE: u32 = 256;

/// Longest code, in bits: the width of the lookahead.
pub const MAX_CODE_BITS: usize = 16;

/// The lookahead bits a code is read from: the low four are cleared.
pub const LOOKAHEAD_MASK: u32 = 0xfff0;

/// A decoded code: how many bits it took and which symbol it names.
#[derive(Clone, Copy, Debug, PartialEq, Eq, Structural)]
pub struct CodeWord {
    pub bits: u8,
    pub symbol: u8,
}

/// The first index at or after `from` whose boundary exceeds `v`, or the
/// table's length when none does.
pub open spec fn boundary_index(boundary: Seq<u32>, v: u32, from: nat) -> nat
    decreases boundary.len() - from,
{
    if from < boundary.len() && boundary[from as int] <= v {
        boundary_index(boundary, v, from + 1)
    } else {
        from
    }
}

/// The code at the head of `lookahead`, for codes of at least `start` bits.
///
/// With `i` the first boundary above the masked lookahead, the code is
/// `start + i` bits long, and its symbol is the offset of the lookahead above
/// the previous boundary, cut down to those bits, plus the base of that
/// length.  A length beyond the lookahead or the base table, or a symbol
/// outside the alphabet, is a corrupt table.
pub open spec fn decode_symbol_spec(
    lookahead: u32,
    start: nat,
    boundary: Seq<u32>,
    base: Seq<u32>,
) -> Result<CodeWord, UnpackError> {
    let v = lookahead & LOOKAHEAD_MASK;
    let i = boundary_index(boundary, v, 0);
    let bits = start + i;
    let floor: u32 = if i == 0 {
        0
    } else {
        boundary[i - 1]
    };
    if bits > MAX_CODE_BITS || bits >= base.len() {
        Err(UnpackError::CorruptTable)
    } else {
        let symbol = (((v - floor) as u32) >> ((16 - bits) as u32)) + base[bits as int];
        if symbol >= ALPHABET_SIZE {
            Err(UnpackError::CorruptTable)
        } else {
            Ok(CodeWord { bits: bits as u8, symbol: symbol as u8 })
        }
    }
}

/// `boundary_index` is the smallest index whose boundary exceeds `v`.
pub proof fn lemma_boundary_index(boundary: Seq<u32>, v: u32, from: nat)
    requires
        from <= boundary.len(),
    ensures
        from <= boundary_index(boundary, v, from) <= boundary.len(),
        forall|j: int| from <= j < boundary_index(boundary, v, from) ==> boundary[j] <= v,
        boundary_index(boundary, v, from) < boundary.len() ==> boundary[boundary_index(
            boundary,
            v,
            from,
        ) as int] > v,
    decreases boundary.len() - from,
{
    if from < boundary.len() && boundary[from as int] <= v {
        lemma_boundary_index(boundary, v, from + 1);
    }
}

/// Decodes the code at the head of `lookahead`.
///
/// A decoded code is never shorter than `start_length`, never longer than
/// the table allows, and names a symbol of the alphabet.
pub fn decode_symbol(lookahead: u32, start_length: usize, boundary: &[u32], base: &[u32]) -> (r:
    Result<CodeWord, UnpackError>)
    ensures
        r == decode_symbol_spec(lookahead, start_length as nat, boundary@, base@),
        r matches Ok(w) ==> start_length <= w.bits <= start_length + boundary@.len() && w.bits
            <= MAX_CODE_BITS && w.bits < base@.len() && (w.symbol as int) < ALPHABET_SIZE,
{
    let v: u32 = lookahead & LOOKAHEAD_MASK;
    let mut i: usize = 0;
    while i < boundary.len() && boundary[i] <= v
        invariant
            i <= boundary@.len(),
            boundary_index(boundary@, v, i as nat) == boundary_index(boundary@, v, 0),
        decreases boundary@.len() - i,
    {
        i = i + 1;
    }
    proof {
        lemma_boundary_index(boundary@, v, 0);
    }
    if start_length > MAX_CODE_BITS || i > MAX_CODE_BITS - start_length {
        return Err(UnpackError::CorruptTable);
    }
    let bits: usize = start_length + i;
    if bits >= base.len() {
        return Err(UnpackError::CorruptTable);
    }
    let floor: u32 = if i == 0 {
        0
    } else {
        boundary[i - 1]
    };
    let offset: u32 = (v - floor) >> ((16 - bits) as u32);
    let step: u32 = base[bits];
    proof {
        assert(v <= 0xfff0) by (bit_vector)
            requires
                v == lookahead & 0xfff0,
        ;
        let d: u32 = (v - floor) as u32;
        let s: u32 = (16 - bits) as u32;
        assert(d >> s <= 0xfff0) by (bit_vector)
            requires
                d <= 0xfff0,
        ;
    }
    if step >= ALPHABET_SIZE || offset >= ALPHABET_SIZE - step {
        return Err(UnpackError::CorruptTable);
    }
    Ok(CodeWord { bits: bits as u8, symbol: (offset + step) as u8 })
}

} // verus!
