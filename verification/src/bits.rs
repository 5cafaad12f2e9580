//! The bitstream over a compressed byte sequence, and the reader that walks it.
//!
//! Bits are numbered from zero, most significant bit of each byte first, and
//! the stream reads as zero past its end.

use vstd::prelude::*;
use crate::error::UnpackError;

verus! {

/// Bit `j` of a byte, counted from its most significant bit.
pub open spec fn byte_bit(b: u8, j: u8) -> u8 {
    (b >> ((7 - j) as u8)) & 1
}

/// Bit `k` of the stream over `src`; zero outside the stream.
pub open spec fn stream_bit(src: Seq<u8>, k: int) -> nat {
    if 0 <= k < 8 * src.len() {
        byte_bit(src[k / 8], (k % 8) as u8) as nat
    } else {
        0
    }
}

/// The number written by the `n` stream bits that start at bit `start`,
/// first bit most significant.
pub open spec fn stream_bits(src: Seq<u8>, start: int, n: nat) -> nat
    decreases n,
{
    if n == 0 {
        0
    } else {
        2 * stream_bits(src, start, (n - 1) as nat) + stream_bit(src, start + n - 1)
    }
}

/// The 16-bit lookahead at bit `pos`.
pub open spec fn lookahead(src: Seq<u8>, pos: nat) -> nat {
    stream_bits(src, pos as int, 16)
}

/// What a reader is: the bytes it reads and how many bits it has consumed.
pub struct BitState {
    pub source: Seq<u8>,
    pub bit_pos: nat,
}

impl BitState {
    /// The bits not yet consumed.
    pub open spec fn bits_left(self) -> int {
        8 * self.source.len() - self.bit_pos
    }

    /// The upcoming 16 bits.
    pub open spec fn lookahead(self) -> nat {
        lookahead(self.source, self.bit_pos)
    }

    /// The reader after `n` more bits.
    pub open spec fn advance(self, n: nat) -> BitState {
        BitState { source: self.source, bit_pos: self.bit_pos + n }
    }

    /// A reader never runs past the end of its source.
    pub open spec fn wf(self) -> bool {
        self.bit_pos <= 8 * self.source.len()
    }
}

/// Bit `j` of a 32-bit word, counted from its most significant bit.
pub open spec fn word_bit(w: u32, j: u32) -> u32 {
    (w >> ((31 - j) as u32)) & 1
}

/// Bit `j` of a 16-bit number, counted from its most significant bit.
pub open spec fn half_bit(r: u32, j: u32) -> u32 {
    (r >> ((15 - j) as u32)) & 1
}

/// A reader over a compressed byte sequence.
///
/// Up to 32 upcoming bits are buffered at the top of `buffer`; the source is
/// read one byte at a time and never rewound.
#[derive(Clone, Copy)]
pub struct BitInput<'a> {
    buffer: u32,
    bit_count: u8,
    source: &'a [u8],
    pos: usize,
}

impl<'a> View for BitInput<'a> {
    type V = BitState;

    closed spec fn view(&self) -> BitState {
        BitState { source: self.source@, bit_pos: (8 * self.pos - self.bit_count) as nat }
    }
}

impl<'a> BitInput<'a> {
    /// The buffer holds exactly the next `bit_count` stream bits, and zeros
    /// below them.
    pub closed spec fn wf(&self) -> bool {
        &&& self.bit_count <= 32
        &&& self.pos <= self.source@.len()
        &&& self.bit_count <= 8 * self.pos
        &&& forall|j: u32|
            0 <= j < 32 ==> #[trigger] word_bit(self.buffer, j) == (if j < self.bit_count {
                stream_bit(self.source@, 8 * self.pos - self.bit_count + j)
            } else {
                0
            })
    }

    /// A reader at the first bit of `source`.
    pub fn new(source: &'a [u8]) -> (r: Self)
        ensures
            r.wf(),
            r@.wf(),
            r@.source == source@,
            r@.bit_pos == 0,
    {
        proof {
            assert forall|j: u32| 0 <= j < 32 implies #[trigger] word_bit(0u32, j) == 0 by {
                assert(word_bit(0u32, j) == 0) by (bit_vector);
            }
        }
        BitInput { buffer: 0, bit_count: 0, source, pos: 0 }
    }

    /// Validity of the reader carries over to its model.
    pub proof fn lemma_view_wf(&self)
        requires
            self.wf(),
        ensures
            self@.wf(),
    {
    }

    /// Loads source bytes until more than 24 bits are buffered or the source
    /// is used up.
    fn refill(&mut self)
        requires
            old(self).wf(),
        ensures
            final(self).wf(),
            final(self)@ == old(self)@,
            final(self).bit_count > 24 || final(self).pos == final(self).source@.len(),
    {
        while self.bit_count <= 24 && self.pos < self.source.len()
            invariant
                self.wf(),
                self@ == old(self)@,
            decreases self.source@.len() - self.pos,
        {
            let byte: u8 = self.source[self.pos];
            let ghost before = *self;
            let shift: u32 = 24 - self.bit_count as u32;
            self.buffer = self.buffer | ((byte as u32) << shift);
            self.bit_count = self.bit_count + 8;
            self.pos = self.pos + 1;
            proof {
                let c = before.bit_count as u32;
                let w = before.buffer;
                let p = 8 * before.pos - before.bit_count;
                assert forall|j: u32| 0 <= j < 32 implies #[trigger] word_bit(self.buffer, j) == (if j
                    < self.bit_count {
                    stream_bit(self.source@, 8 * self.pos - self.bit_count + j)
                } else {
                    0
                }) by {
                    assert(word_bit(w, j) == (if j < c {
                        stream_bit(before.source@, p + j)
                    } else {
                        0
                    }));
                    lemma_refill_bit(w, byte, c, j);
                    if c <= j && j < c + 8 {
                        let k = p + j;
                        assert(k == 8 * before.pos + (j - c));
                        assert(k / 8 == before.pos as int);
                        assert(k % 8 == j - c);
                    }
                }
            }
        }
    }

    /// Drops the top `n` buffered bits.
    fn discard(&mut self, n: u8)
        requires
            old(self).wf(),
            n <= old(self).bit_count,
        ensures
            final(self).wf(),
            final(self)@ == old(self)@.advance(n as nat),
    {
        let ghost before = *self;
        self.buffer = if n >= 32 {
            0
        } else {
            self.buffer << (n as u32)
        };
        self.bit_count = self.bit_count - n;
        proof {
            let w = before.buffer;
            let c = before.bit_count as u32;
            let p = 8 * before.pos - before.bit_count;
            assert forall|j: u32| 0 <= j < 32 implies #[trigger] word_bit(self.buffer, j) == (if j
                < self.bit_count {
                stream_bit(self.source@, 8 * self.pos - self.bit_count + j)
            } else {
                0
            }) by {
                lemma_discard_bit(w, n as u32, j);
                if j + n < 32 {
                    let jn = (j + n) as u32;
                    assert(word_bit(w, jn) == (if jn < c {
                        stream_bit(before.source@, p + jn)
                    } else {
                        0
                    }));
                }
            }
        }
    }

    /// Whether `bits` more bits can be consumed.
    fn has_bits(&self, bits: u8) -> (r: bool)
        requires
            self.wf(),
        ensures
            r == (bits <= self@.bits_left()),
    {
        if bits <= self.bit_count {
            true
        } else {
            let need: usize = (bits - self.bit_count) as usize;
            let bytes: usize = (need + 7) / 8;
            self.source.len() - self.pos >= bytes
        }
    }

    /// The 16-bit lookahead: the next 16 bits of the stream, zero-filled past
    /// its end.  The reader's position does not move, so a second call gives
    /// the same value.
    pub fn fgetbits(&mut self) -> (r: u32)
        requires
            old(self).wf(),
        ensures
            final(self).wf(),
            final(self)@ == old(self)@,
            r == old(self)@.lookahead(),
            r <= 0xffff,
    {
        self.refill();
        let r: u32 = self.buffer >> 16;
        proof {
            let w = self.buffer;
            let c = self.bit_count as u32;
            let p = 8 * self.pos - self.bit_count;
            assert(r <= 0xffff) by (bit_vector)
                requires
                    r == w >> 16,
            ;
            assert forall|j: u32| 0 <= j < 16 implies #[trigger] half_bit(r, j) as nat
                == stream_bit(self.source@, p + j) by {
                assert(half_bit(r, j) == word_bit(w, j)) by (bit_vector)
                    requires
                        r == w >> 16,
                        j < 16,
                ;
                assert(word_bit(w, j) == (if j < c {
                    stream_bit(self.source@, p + j)
                } else {
                    0
                }));
            }
            lemma_top_bits_value(self.source@, p, r, 16);
            assert(r >> 0 == r) by (bit_vector);
        }
        r
    }

    /// Consumes `bits` bits of the stream.
    ///
    /// Fails with `BitstreamExhausted`, consuming nothing, when fewer than
    /// `bits` bits are left.
    pub fn faddbits(&mut self, bits: u8) -> (r: Result<(), UnpackError>)
        requires
            old(self).wf(),
        ensures
            final(self).wf(),
            bits <= old(self)@.bits_left() ==> r == Ok::<(), UnpackError>(()) && final(self)@ == old(
                self,
            )@.advance(bits as nat),
            bits > old(self)@.bits_left() ==> r == Err::<(), UnpackError>(
                UnpackError::BitstreamExhausted,
            ) && final(self)@ == old(self)@,
    {
        if !self.has_bits(bits) {
            return Err(UnpackError::BitstreamExhausted);
        }
        let mut left: u8 = bits;
        while left > 0
            invariant
                self.wf(),
                left <= bits,
                left <= self@.bits_left(),
                self@ == old(self)@.advance((bits - left) as nat),
            decreases left,
        {
            self.refill();
            let take: u8 = if left < self.bit_count {
                left
            } else {
                self.bit_count
            };
            self.discard(take);
            left = left - take;
        }
        Ok(())
    }

    /// The index of the source byte that holds the next bit.
    pub fn byte_offset(&self) -> (r: usize)
        requires
            self.wf(),
        ensures
            r == self@.bit_pos / 8,
    {
        self.pos - ((self.bit_count as usize) + 7) / 8
    }
}

/// Or-ing a byte in below `c` buffered bits sets the eight bits after them.
proof fn lemma_refill_bit(w: u32, b: u8, c: u32, j: u32)
    by (bit_vector)
    requires
        c <= 24,
        j < 32,
        j >= c ==> word_bit(w, j) == 0,
    ensures
        word_bit(w | ((b as u32) << ((24 - c) as u32)), j) == (if c <= j && j < c + 8 {
            byte_bit(b, (j - c) as u8) as u32
        } else {
            word_bit(w, j)
        }),
{
}

/// Shifting left by `n` moves bit `j + n` to bit `j`.
proof fn lemma_discard_bit(w: u32, n: u32, j: u32)
    by (bit_vector)
    requires
        n <= 32,
        j < 32,
    ensures
        word_bit(if n >= 32 { 0 } else { w << n }, j) == (if j + n < 32 {
            word_bit(w, (j + n) as u32)
        } else {
            0
        }),
{
}

/// A 16-bit number whose bits are stream bits is the number those bits write.
proof fn lemma_top_bits_value(src: Seq<u8>, p: int, r: u32, n: u32)
    requires
        r <= 0xffff,
        n <= 16,
        forall|j: u32| 0 <= j < 16 ==> #[trigger] half_bit(r, j) as nat == stream_bit(src, p + j),
    ensures
        stream_bits(src, p, n as nat) == r >> ((16 - n) as u32),
    decreases n,
{
    if n == 0 {
        assert(r >> 16 == 0) by (bit_vector)
            requires
                r <= 0xffff,
        ;
    } else {
        let m = (n - 1) as u32;
        lemma_top_bits_value(src, p, r, m);
        assert(half_bit(r, m) as nat == stream_bit(src, p + m));
        assert(r >> ((16 - n) as u32) == 2 * (r >> ((16 - m) as u32)) + half_bit(r, m))
            by (bit_vector)
            requires
                r <= 0xffff,
                1 <= n <= 16,
                m == n - 1,
        ;
    }
}

} // verus!
