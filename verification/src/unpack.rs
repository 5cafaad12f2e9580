//! The decoding session: its model, the per-symbol step and the loop.
//!
//! [`UnpackState`] is the mathematical state of a session and
//! [`UnpackState::step`] its transition function.  [`Unpack`] is the
//! executable session; each of its operations is proved to compute the
//! transition of the same name on the model.  A refused operation changes
//! nothing.

use vstd::prelude::*;
use crate::bits::{BitInput, BitState};
use crate::codes::{boundary_index, decode_symbol, decode_symbol_spec, CodeWord, LOOKAHEAD_MASK};
use crate::error::UnpackError;
use crate::table::{AdaptiveSymbolTable, TableState};
use crate::window::{OutputWindow, WindowState};

verus! {

/// Shortest literal code, in bits.
pub const LITERAL_START: usize = 0;

/// Thresholds of the literal code.
pub const LITERAL_BOUNDARY: [u32; 5] = [0x1000, 0x3000, 0x5000, 0x7000, 0xffff];

/// First rank of each literal code length.
pub const LITERAL_BASE: [u32; 6] = [0, 1, 2, 3, 4, 5];

/// Shortest distance code, in bits.
pub const DISTANCE_START: usize = 2;

/// Thresholds of the distance code.
pub const DISTANCE_BOUNDARY: [u32; 4] = [0x2000, 0x4000, 0x6000, 0x8000];

/// First symbol of each distance code length.
pub const DISTANCE_BASE: [u32; 5] = [0, 1, 2, 3, 4];

/// In run-length mode, rank zero with a lookahead above this is the escape.
pub const ESCAPE_THRESHOLD: u32 = 0x0fff;

/// First byte of the escape value `0x0100`.
pub const ESCAPE_HIGH: u8 = 0x01;

/// Second byte of the escape value `0x0100`.
pub const ESCAPE_LOW: u8 = 0x00;

/// Literals after which literal mode gives way to run-length mode.
pub const LITERAL_RUN: usize = 16;

/// What each literal adds to the saturating counter.
pub const NHFB_STEP: u32 = 16;

/// The ceiling of the saturating counter.
pub const NHFB_LIMIT: u32 = 0xff;

/// What the saturating counter restarts from.
pub const NHFB_RESET: u32 = 0x90;

/// The ceiling of the running average of literal ranks.
pub const AVR_PLC_LIMIT: u32 = 0xff00;

/// How a decoded rank is read.
#[derive(Clone, Copy, Debug, PartialEq, Eq, Structural)]
pub enum DecoderMode {
    /// Every rank names a literal.
    LiteralHuffmanMode,
    /// Rank zero opens an escape, a mode switch or a back-reference.
    RunLengthMode,
}

/// The running average of literal ranks after one more rank, with decay
/// 1/256.
pub open spec fn average_after(average: nat, rank: u8) -> nat {
    let sum = average + rank;
    (sum - sum / 256) as nat
}

/// The state of a decoding session.
pub struct UnpackState {
    /// The compressed source and the reading position.
    pub input: BitState,
    /// The adaptive symbol table.
    pub table: TableState,
    /// The output so far and the window's capacity.
    pub window: WindowState,
    /// Bytes still owed.
    pub remaining: nat,
    pub mode: DecoderMode,
    /// Literals decoded since literal mode was last entered.
    pub num_huf: nat,
    /// While this is not zero, literal mode does not give way.
    pub flags_cnt: u8,
    /// Running average of literal ranks.
    pub avr_plc: nat,
    /// Saturating counter of literals.
    pub nhfb: nat,
    /// The counter paired with `nhfb`, halved when that one saturates.
    pub nlzb: nat,
}

impl UnpackState {
    /// The parts are valid, the bookkeeping stays under its ceilings, and
    /// no more literals are counted than bytes were produced.
    pub open spec fn wf(self) -> bool {
        &&& self.input.wf()
        &&& self.table.wf()
        &&& self.window.wf()
        &&& self.nhfb <= NHFB_LIMIT
        &&& self.avr_plc <= AVR_PLC_LIMIT
        &&& self.num_huf <= self.window.history.len()
    }

    /// The state a session starts in: literal mode, identity table, empty
    /// window, all bookkeeping at zero.
    pub open spec fn initial(input: BitState, capacity: nat, remaining: nat) -> UnpackState {
        UnpackState {
            input,
            table: TableState::identity(),
            window: WindowState::empty(capacity),
            remaining,
            mode: DecoderMode::LiteralHuffmanMode,
            num_huf: 0,
            flags_cnt: 0,
            avr_plc: 0,
            nhfb: 0,
            nlzb: 0,
        }
    }

    /// Consumes `n` bits, if the source has them.
    pub open spec fn consume(self, n: nat) -> Result<UnpackState, UnpackError> {
        if n > self.input.bits_left() {
            Err(UnpackError::BitstreamExhausted)
        } else {
            Ok(UnpackState { input: self.input.advance(n), ..self })
        }
    }

    /// Decodes the code at the head of `field` and consumes its bits.
    pub open spec fn decode(self, field: u32, start: nat, boundary: Seq<u32>, base: Seq<u32>) -> Result<
        (UnpackState, u8),
        UnpackError,
    > {
        match decode_symbol_spec(field, start, boundary, base) {
            Err(e) => Err(e),
            Ok(word) => match self.consume(word.bits as nat) {
                Err(e) => Err(e),
                Ok(s) => Ok((s, word.symbol)),
            },
        }
    }

    /// Emits one byte, if one is still owed.
    pub open spec fn emit(self, byte: u8) -> Result<UnpackState, UnpackError> {
        if self.remaining < 1 {
            Err(UnpackError::OutputOverrun)
        } else {
            Ok(
                UnpackState {
                    window: self.window.push(byte),
                    remaining: (self.remaining - 1) as nat,
                    ..self
                },
            )
        }
    }

    /// Emits the run of a back-reference, if the distance is within the
    /// held history and the run within what is owed.
    pub open spec fn copy(self, distance: nat, length: nat) -> Result<UnpackState, UnpackError> {
        if !self.window.valid_distance(distance) {
            Err(UnpackError::InvalidBackReference)
        } else if length > self.remaining {
            Err(UnpackError::OutputOverrun)
        } else {
            Ok(
                UnpackState {
                    window: self.window.copy_back(distance, length),
                    remaining: (self.remaining - length) as nat,
                    ..self
                },
            )
        }
    }

    /// Emits the two bytes of the escape value, high byte first, if two
    /// bytes are still owed.
    pub open spec fn escape(self) -> Result<UnpackState, UnpackError> {
        if self.remaining < 2 {
            Err(UnpackError::OutputOverrun)
        } else {
            Ok(
                UnpackState {
                    window: self.window.push(ESCAPE_HIGH).push(ESCAPE_LOW),
                    remaining: (self.remaining - 2) as nat,
                    ..self
                },
            )
        }
    }

    /// Emits the literal at `rank` and does the bookkeeping of a literal:
    /// the running average, the saturating counter and its pair, the
    /// promotion in the table, the literal count, and the change to
    /// run-length mode once the count has reached `LITERAL_RUN` in literal
    /// mode with `flags_cnt` at zero.
    pub open spec fn literal(self, rank: u8) -> Result<UnpackState, UnpackError> {
        if self.remaining < 1 {
            Err(UnpackError::OutputOverrun)
        } else {
            let saturated = self.nhfb + NHFB_STEP > NHFB_LIMIT;
            let num_huf = self.num_huf + 1;
            Ok(
                UnpackState {
                    table: self.table.promote(rank),
                    window: self.window.push(self.table.lookup(rank)),
                    remaining: (self.remaining - 1) as nat,
                    avr_plc: average_after(self.avr_plc, rank),
                    nhfb: if saturated {
                        NHFB_RESET as nat
                    } else {
                        self.nhfb + NHFB_STEP as nat
                    },
                    nlzb: if saturated {
                        self.nlzb / 2
                    } else {
                        self.nlzb
                    },
                    num_huf,
                    mode: if self.mode == DecoderMode::LiteralHuffmanMode && num_huf >= LITERAL_RUN
                        && self.flags_cnt == 0 {
                        DecoderMode::RunLengthMode
                    } else {
                        self.mode
                    },
                    ..self
                },
            )
        }
    }

    /// Reads a back-reference of the given length: one bit is consumed, the
    /// distance code gives the high part of the distance, the top five bits
    /// after it the low part, and the run is copied.
    pub open spec fn back_reference(self, length: nat) -> Result<UnpackState, UnpackError> {
        match self.consume(1) {
            Err(e) => Err(e),
            Ok(s1) => match s1.decode(
                s1.input.lookahead() as u32,
                DISTANCE_START as nat,
                DISTANCE_BOUNDARY@,
                DISTANCE_BASE@,
            ) {
                Err(e) => Err(e),
                Ok((s2, high)) => match s2.consume(5) {
                    Err(e) => Err(e),
                    Ok(s3) => s3.copy(high as nat * 32 + s2.input.lookahead() / 2048, length),
                },
            },
        }
    }

    /// What follows rank zero in run-length mode, short of the escape: one
    /// bit is consumed; set, it switches to literal mode and clears the
    /// literal count; clear, the bit after it picks length 4 or 3 of a
    /// back-reference.
    pub open spec fn run_length(self) -> Result<UnpackState, UnpackError> {
        let flags = self.input.lookahead();
        match self.consume(1) {
            Err(e) => Err(e),
            Ok(s) => if flags >= 0x8000 {
                Ok(UnpackState { mode: DecoderMode::LiteralHuffmanMode, num_huf: 0, ..s })
            } else {
                s.back_reference(
                    if flags % 0x8000 >= 0x4000 {
                        4
                    } else {
                        3
                    },
                )
            },
        }
    }

    /// One step of the state machine: a rank is decoded with the literal
    /// code; in run-length mode rank zero is the escape when the lookahead
    /// is above the threshold and a switch or back-reference otherwise; any
    /// other rank is a literal.
    pub open spec fn step(self) -> Result<UnpackState, UnpackError> {
        let field = self.input.lookahead() as u32;
        match self.decode(field, LITERAL_START as nat, LITERAL_BOUNDARY@, LITERAL_BASE@) {
            Err(e) => Err(e),
            Ok((s, rank)) => if s.mode == DecoderMode::RunLengthMode && rank == 0 {
                if field > ESCAPE_THRESHOLD {
                    s.escape()
                } else {
                    s.run_length()
                }
            } else {
                s.literal(rank)
            },
        }
    }
}

impl UnpackState {
    /// What no step changes: this state reads the source that `earlier`
    /// read, through a window of the same capacity and with the same flag
    /// counter, and its output begins with the output of `earlier`.
    pub open spec fn keeps(self, earlier: UnpackState) -> bool {
        &&& self.input.source == earlier.input.source
        &&& self.window.capacity == earlier.window.capacity
        &&& self.flags_cnt == earlier.flags_cnt
        &&& earlier.window.history.is_prefix_of(self.window.history)
    }

    /// `count` steps in a row, stopping at the first that is refused.
    pub open spec fn steps(self, count: nat) -> Result<UnpackState, UnpackError>
        decreases count,
    {
        if count == 0 {
            Ok(self)
        } else {
            match self.steps((count - 1) as nat) {
                Err(e) => Err(e),
                Ok(s) => s.step(),
            }
        }
    }

    /// The session run to its end: steps are taken while bytes are owed.
    /// The result is the state the run stops in and, where a step was
    /// refused, the reason.
    pub open spec fn run(self) -> (UnpackState, Option<UnpackError>)
        decreases self.remaining, self.input.bits_left(),
    {
        if self.remaining == 0 {
            (self, None)
        } else {
            match self.step() {
                Err(e) => (self, Some(e)),
                Ok(next) => {
                    proof {
                        lemma_step_progress(self);
                    }
                    next.run()
                },
            }
        }
    }
}

/// The literal code of this format decodes every lookahead: the code is at
/// most four bits long and its rank at most twelve.  Rank zero is the code
/// of no bits, read from a lookahead whose masked value is under the first
/// boundary.
pub proof fn lemma_literal_code(field: u32)
    ensures
        decode_symbol_spec(field, LITERAL_START as nat, LITERAL_BOUNDARY@, LITERAL_BASE@) is Ok,
        decode_symbol_spec(
            field,
            LITERAL_START as nat,
            LITERAL_BOUNDARY@,
            LITERAL_BASE@,
        )->Ok_0.bits <= 4,
        decode_symbol_spec(
            field,
            LITERAL_START as nat,
            LITERAL_BOUNDARY@,
            LITERAL_BASE@,
        )->Ok_0.symbol <= 12,
        decode_symbol_spec(
            field,
            LITERAL_START as nat,
            LITERAL_BOUNDARY@,
            LITERAL_BASE@,
        )->Ok_0.symbol == 0 <==> (field & LOOKAHEAD_MASK) < 0x1000,
        (field & LOOKAHEAD_MASK) < 0x1000 ==> decode_symbol_spec(
            field,
            LITERAL_START as nat,
            LITERAL_BOUNDARY@,
            LITERAL_BASE@,
        )->Ok_0.bits == 0,
{
    let v = field & LOOKAHEAD_MASK;
    reveal_with_fuel(boundary_index, 6);
    assert(v <= 0xfff0) by (bit_vector)
        requires
            v == field & 0xfff0,
    ;
    assert(v < 0x1000 ==> v >> 16 == 0) by (bit_vector);
    assert(0x1000 <= v < 0x3000 ==> ((v - 0x1000) as u32) >> 15 == 0) by (bit_vector);
    assert(0x3000 <= v < 0x5000 ==> ((v - 0x3000) as u32) >> 14 == 0) by (bit_vector);
    assert(0x5000 <= v < 0x7000 ==> ((v - 0x5000) as u32) >> 13 == 0) by (bit_vector);
    assert(0x7000 <= v <= 0xfff0 ==> ((v - 0x7000) as u32) >> 12 <= 8) by (bit_vector);
}

/// The distance code of this format decodes a lookahead whose masked value
/// is under `0x6000`, to a code of two to four bits and a symbol from two to
/// five; any other lookahead finds the table corrupt.
pub proof fn lemma_distance_code(field: u32)
    ensures
        (field & LOOKAHEAD_MASK) >= 0x6000 ==> decode_symbol_spec(
            field,
            DISTANCE_START as nat,
            DISTANCE_BOUNDARY@,
            DISTANCE_BASE@,
        ) == Err::<CodeWord, UnpackError>(UnpackError::CorruptTable),
        (field & LOOKAHEAD_MASK) < 0x6000 ==> decode_symbol_spec(
            field,
            DISTANCE_START as nat,
            DISTANCE_BOUNDARY@,
            DISTANCE_BASE@,
        ) is Ok && 2 <= decode_symbol_spec(
            field,
            DISTANCE_START as nat,
            DISTANCE_BOUNDARY@,
            DISTANCE_BASE@,
        )->Ok_0.bits <= 4 && 2 <= decode_symbol_spec(
            field,
            DISTANCE_START as nat,
            DISTANCE_BOUNDARY@,
            DISTANCE_BASE@,
        )->Ok_0.symbol <= 5,
{
    let v = field & LOOKAHEAD_MASK;
    reveal_with_fuel(boundary_index, 6);
    assert(v <= 0xfff0) by (bit_vector)
        requires
            v == field & 0xfff0,
    ;
    assert(v < 0x2000 ==> v >> 14 == 0) by (bit_vector);
    assert(0x2000 <= v < 0x4000 ==> ((v - 0x2000) as u32) >> 13 == 0) by (bit_vector);
    assert(0x4000 <= v < 0x6000 ==> ((v - 0x4000) as u32) >> 12 <= 1) by (bit_vector);
}

/// Every step emits at least one byte or consumes at least one bit, and
/// emits exactly as many bytes as it takes off what is owed.
pub proof fn lemma_step_progress(s: UnpackState)
    requires
        s.step() is Ok,
    ensures
        s.step()->Ok_0.remaining <= s.remaining,
        s.step()->Ok_0.window.history.len() + s.step()->Ok_0.remaining == s.window.history.len()
            + s.remaining,
        s.step()->Ok_0.remaining == s.remaining ==> 0 <= s.step()->Ok_0.input.bits_left()
            < s.input.bits_left(),
        s.step()->Ok_0.keeps(s),
{
    let field = s.input.lookahead() as u32;
    let (s1, rank) = s.decode(field, LITERAL_START as nat, LITERAL_BOUNDARY@, LITERAL_BASE@)->Ok_0;
    if s1.mode == DecoderMode::RunLengthMode && rank == 0 && field <= ESCAPE_THRESHOLD {
        let flags = s1.input.lookahead();
        let s2 = s1.consume(1)->Ok_0;
        if flags < 0x8000 {
            let s3 = s2.consume(1)->Ok_0;
            let (s4, high) = s3.decode(
                s3.input.lookahead() as u32,
                DISTANCE_START as nat,
                DISTANCE_BOUNDARY@,
                DISTANCE_BASE@,
            )->Ok_0;
            let s5 = s4.consume(5)->Ok_0;
            let distance = high as nat * 32 + s4.input.lookahead() / 2048;
            let length: nat = if flags % 0x8000 >= 0x4000 {
                4
            } else {
                3
            };
            crate::window::lemma_copy_back_history(s5.window, distance, length);
        }
    }
    assert(s.window.history.is_prefix_of(s.step()->Ok_0.window.history));
}

/// A step keeps the session valid.  In particular the saturating counter
/// stays at or under its ceiling and the running average under its own.
pub proof fn lemma_step_wf(s: UnpackState)
    requires
        s.wf(),
        s.step() is Ok,
    ensures
        s.step()->Ok_0.wf(),
{
    let field = s.input.lookahead() as u32;
    let (s1, rank) = s.decode(field, LITERAL_START as nat, LITERAL_BOUNDARY@, LITERAL_BASE@)->Ok_0;
    if s1.mode == DecoderMode::RunLengthMode && rank == 0 {
        if field <= ESCAPE_THRESHOLD {
            let flags = s1.input.lookahead();
            let s2 = s1.consume(1)->Ok_0;
            if flags < 0x8000 {
                let s3 = s2.consume(1)->Ok_0;
                let (s4, high) = s3.decode(
                    s3.input.lookahead() as u32,
                    DISTANCE_START as nat,
                    DISTANCE_BOUNDARY@,
                    DISTANCE_BASE@,
                )->Ok_0;
                let s5 = s4.consume(5)->Ok_0;
                let distance = high as nat * 32 + s4.input.lookahead() / 2048;
                let length: nat = if flags % 0x8000 >= 0x4000 {
                    4
                } else {
                    3
                };
                crate::window::lemma_copy_back_history(s5.window, distance, length);
            }
        }
    } else {
        lemma_literal(s1, rank);
    }
}

/// What a literal does to the bookkeeping: the saturating counter goes up
/// by its step and never past its ceiling; where the step would take it
/// past, it restarts from `NHFB_RESET` and the paired counter is halved.
/// The literal keeps the session valid.
pub proof fn lemma_literal(s: UnpackState, rank: u8)
    requires
        s.wf(),
        s.literal(rank) is Ok,
    ensures
        s.literal(rank)->Ok_0.wf(),
        s.literal(rank)->Ok_0.nhfb <= NHFB_LIMIT,
        s.nhfb + NHFB_STEP > NHFB_LIMIT ==> s.literal(rank)->Ok_0.nhfb == NHFB_RESET && s.literal(
            rank,
        )->Ok_0.nlzb == s.nlzb / 2,
        s.nhfb + NHFB_STEP <= NHFB_LIMIT ==> s.literal(rank)->Ok_0.nhfb == s.nhfb + NHFB_STEP
            && s.literal(rank)->Ok_0.nlzb == s.nlzb,
{
    crate::table::lemma_promote_wf(s.table, rank);
}

/// From literal mode with `flags_cnt` and the literal count at zero, every
/// step decodes a literal, and run-length mode is entered by the sixteenth
/// of them and not before.
pub proof fn lemma_sixteen_literals(s: UnpackState, count: nat)
    requires
        s.wf(),
        s.mode == DecoderMode::LiteralHuffmanMode,
        s.flags_cnt == 0,
        s.num_huf == 0,
        count <= LITERAL_RUN,
        s.steps(count) is Ok,
    ensures
        s.steps(count)->Ok_0.wf(),
        s.steps(count)->Ok_0.num_huf == count,
        s.steps(count)->Ok_0.flags_cnt == 0,
        s.steps(count)->Ok_0.window.history.len() == s.window.history.len() + count,
        s.steps(count)->Ok_0.mode == (if count < LITERAL_RUN {
            DecoderMode::LiteralHuffmanMode
        } else {
            DecoderMode::RunLengthMode
        }),
    decreases count,
{
    if count > 0 {
        lemma_sixteen_literals(s, (count - 1) as nat);
        let before = s.steps((count - 1) as nat)->Ok_0;
        lemma_step_wf(before);
    }
}

/// A run ends valid, owing no more than it started with, and having
/// emitted exactly what it no longer owes.  A run that no step refused
/// ends owing nothing; one that was stopped ends in the state whose step
/// was refused.
pub proof fn lemma_run(s: UnpackState)
    requires
        s.wf(),
    ensures
        s.run().0.wf(),
        s.run().0.remaining <= s.remaining,
        s.run().0.window.history.len() + s.run().0.remaining == s.window.history.len()
            + s.remaining,
        s.run().0.keeps(s),
        s.run().1 is None ==> s.run().0.remaining == 0,
        s.run().1 matches Some(e) ==> s.run().0.remaining > 0 && s.run().0.step() == Err::<
            UnpackState,
            UnpackError,
        >(e),
    decreases s.remaining, s.input.bits_left(),
{
    if s.remaining != 0 {
        if let Ok(next) = s.step() {
            lemma_step_progress(s);
            lemma_step_wf(s);
            lemma_run(next);
        }
    }
}

/// A run that was stopped, with what it had produced by then.
#[derive(Debug)]
pub struct UnpackFailure {
    /// Why the step was refused.
    pub kind: UnpackError,
    /// The index of the source byte at which the refused step began.
    pub offset: usize,
    /// The output produced before the refused step, or nothing where the
    /// caller chose to drop it.
    pub partial: Vec<u8>,
}

/// One decoding session.
pub struct Unpack<'a> {
    inp: BitInput<'a>,
    table: AdaptiveSymbolTable,
    window: OutputWindow,
    dest_unp_size: usize,
    mode: DecoderMode,
    num_huf: usize,
    flags_cnt: u8,
    avr_plc: u32,
    nhfb: u32,
    nlzb: u32,
}

impl<'a> View for Unpack<'a> {
    type V = UnpackState;

    closed spec fn view(&self) -> UnpackState {
        UnpackState {
            input: self.inp@,
            table: self.table@,
            window: self.window@,
            remaining: self.dest_unp_size as nat,
            mode: self.mode,
            num_huf: self.num_huf as nat,
            flags_cnt: self.flags_cnt,
            avr_plc: self.avr_plc as nat,
            nhfb: self.nhfb as nat,
            nlzb: self.nlzb as nat,
        }
    }
}

impl<'a> Unpack<'a> {
    /// The parts are valid and so is the model.
    pub closed spec fn wf(&self) -> bool {
        &&& self.inp.wf()
        &&& self.table.wf()
        &&& self.window.wf()
        &&& self@.wf()
    }

    /// Validity of the session carries over to its model.
    pub proof fn lemma_view_wf(&self)
        requires
            self.wf(),
        ensures
            self@.wf(),
    {
    }

    /// A session over `inp` that owes `dest_unp_size` bytes and keeps a
    /// window of `window_capacity` bytes.
    pub fn new(inp: BitInput<'a>, window_capacity: usize, dest_unp_size: usize) -> (r: Self)
        requires
            inp.wf(),
            window_capacity > 0,
        ensures
            r.wf(),
            r@ == UnpackState::initial(inp@, window_capacity as nat, dest_unp_size as nat),
    {
        proof {
            inp.lemma_view_wf();
        }
        Unpack {
            inp,
            table: AdaptiveSymbolTable::new(),
            window: OutputWindow::new(window_capacity),
            dest_unp_size,
            mode: DecoderMode::LiteralHuffmanMode,
            num_huf: 0,
            flags_cnt: 0,
            avr_plc: 0,
            nhfb: 0,
            nlzb: 0,
        }
    }

    /// The reader over the compressed source.
    pub fn input(&self) -> (r: &BitInput<'a>)
        requires
            self.wf(),
        ensures
            r.wf(),
            r@ == self@.input,
    {
        &self.inp
    }

    /// The adaptive symbol table.
    pub fn table(&self) -> (r: &AdaptiveSymbolTable)
        requires
            self.wf(),
        ensures
            r.wf(),
            r@ == self@.table,
    {
        &self.table
    }

    /// The output so far and the window over it.
    pub fn window(&self) -> (r: &OutputWindow)
        requires
            self.wf(),
        ensures
            r.wf(),
            r@ == self@.window,
    {
        &self.window
    }

    /// The number of bytes still owed.
    pub fn dest_unp_size(&self) -> (r: usize)
        ensures
            r == self@.remaining,
    {
        self.dest_unp_size
    }

    /// How ranks are read at present.
    pub fn mode(&self) -> (r: DecoderMode)
        ensures
            r == self@.mode,
    {
        self.mode
    }

    /// The literals decoded since literal mode was last entered.
    pub fn num_huf(&self) -> (r: usize)
        ensures
            r == self@.num_huf,
    {
        self.num_huf
    }

    /// The flag counter.
    pub fn flags_cnt(&self) -> (r: u8)
        ensures
            r == self@.flags_cnt,
    {
        self.flags_cnt
    }

    /// The running average of literal ranks.
    pub fn avr_plc(&self) -> (r: u32)
        ensures
            r == self@.avr_plc,
    {
        self.avr_plc
    }

    /// The saturating counter of literals.
    pub fn nhfb(&self) -> (r: u32)
        ensures
            r == self@.nhfb,
    {
        self.nhfb
    }

    /// The counter paired with the saturating counter.
    pub fn nlzb(&self) -> (r: u32)
        ensures
            r == self@.nlzb,
    {
        self.nlzb
    }

    /// Sets how ranks are read from now on.
    pub fn set_mode(&mut self, mode: DecoderMode)
        requires
            old(self).wf(),
        ensures
            final(self).wf(),
            final(self)@ == (UnpackState { mode, ..old(self)@ }),
    {
        self.mode = mode;
    }

    /// Sets the flag counter.
    pub fn set_flags_cnt(&mut self, flags_cnt: u8)
        requires
            old(self).wf(),
        ensures
            final(self).wf(),
            final(self)@ == (UnpackState { flags_cnt, ..old(self)@ }),
    {
        self.flags_cnt = flags_cnt;
    }

    /// Sets the counter paired with the saturating counter.
    pub fn set_nlzb(&mut self, nlzb: u32)
        requires
            old(self).wf(),
        ensures
            final(self).wf(),
            final(self)@ == (UnpackState { nlzb: nlzb as nat, ..old(self)@ }),
    {
        self.nlzb = nlzb;
    }

    /// Ends the session and hands out every byte it produced, oldest first.
    pub fn into_output(self) -> (r: Vec<u8>)
        requires
            self.wf(),
        ensures
            r@ == self@.window.history,
    {
        self.window.into_output()
    }

    /// Decodes the code at the head of `num` against the given table and
    /// consumes its bits.
    ///
    /// Fails with `CorruptTable` where the table gives no symbol, and with
    /// `BitstreamExhausted` where the source lacks the code's bits.
    pub fn decode_num(&mut self, num: u32, start_pos: usize, dec_tab: &[u32], pos_tab: &[u32]) -> (r:
        Result<u32, UnpackError>)
        requires
            old(self).wf(),
        ensures
            final(self).wf(),
            match old(self)@.decode(num, start_pos as nat, dec_tab@, pos_tab@) {
                Ok((s, symbol)) => r == Ok::<u32, UnpackError>(symbol as u32) && final(self)@ == s,
                Err(e) => r == Err::<u32, UnpackError>(e) && final(self)@ == old(self)@,
            },
    {
        match decode_symbol(num, start_pos, dec_tab, pos_tab) {
            Err(e) => Err(e),
            Ok(word) => match self.inp.faddbits(word.bits) {
                Err(e) => Err(e),
                Ok(()) => {
                    proof {
                        self.inp.lemma_view_wf();
                    }
                    Ok(word.symbol as u32)
                },
            },
        }
    }

    /// Resets the symbol table to identity order and its counters to zero.
    pub fn corr_huff(&mut self)
        requires
            old(self).wf(),
        ensures
            final(self).wf(),
            final(self)@ == (UnpackState { table: TableState::identity(), ..old(self)@ }),
            forall|rank: u8| final(self)@.table.lookup(rank) == rank,
            forall|literal: u8| final(self)@.table.counters[literal as int] == 0,
    {
        self.table.correct();
    }

    /// Copies a run of `length` bytes from `distance` back in the output,
    /// one byte at a time.
    ///
    /// Fails with `InvalidBackReference` when `distance` is zero or reaches
    /// behind the held history, else with `OutputOverrun` when the run is
    /// longer than what is owed.
    pub fn copy_string15(&mut self, distance: u32, length: u32) -> (r: Result<(), UnpackError>)
        requires
            old(self).wf(),
        ensures
            final(self).wf(),
            match old(self)@.copy(distance as nat, length as nat) {
                Ok(s) => r == Ok::<(), UnpackError>(()) && final(self)@ == s,
                Err(e) => r == Err::<(), UnpackError>(e) && final(self)@ == old(self)@,
            },
    {
        if distance == 0 || distance as usize > self.window.available() {
            return Err(UnpackError::InvalidBackReference);
        }
        if length as usize > self.dest_unp_size {
            return Err(UnpackError::OutputOverrun);
        }
        let copied = self.window.copy_back(distance, length);
        self.dest_unp_size = self.dest_unp_size - length as usize;
        proof {
            crate::window::lemma_copy_back_history(old(self)@.window, distance as nat, length as nat);
        }
        copied
    }

    /// Emits one byte.
    ///
    /// Fails with `OutputOverrun` when no byte is owed.
    pub fn write_window(&mut self, val: u8) -> (r: Result<(), UnpackError>)
        requires
            old(self).wf(),
        ensures
            final(self).wf(),
            match old(self)@.emit(val) {
                Ok(s) => r == Ok::<(), UnpackError>(()) && final(self)@ == s,
                Err(e) => r == Err::<(), UnpackError>(e) && final(self)@ == old(self)@,
            },
    {
        if self.dest_unp_size == 0 {
            return Err(UnpackError::OutputOverrun);
        }
        self.window.push_literal(val);
        self.dest_unp_size = self.dest_unp_size - 1;
        Ok(())
    }

    /// Emits the literal at `rank` and does the bookkeeping of a literal.
    fn decode_literal(&mut self, rank: u8) -> (r: Result<(), UnpackError>)
        requires
            old(self).wf(),
        ensures
            final(self).wf(),
            match old(self)@.literal(rank) {
                Ok(s) => r == Ok::<(), UnpackError>(()) && final(self)@ == s,
                Err(e) => r == Err::<(), UnpackError>(e) && final(self)@ == old(self)@,
            },
    {
        if self.dest_unp_size == 0 {
            return Err(UnpackError::OutputOverrun);
        }
        let sum: u32 = self.avr_plc + rank as u32;
        assert(sum >> 8 == sum / 256) by (bit_vector);
        self.avr_plc = sum - (sum >> 8);
        self.nhfb = self.nhfb + NHFB_STEP;
        if self.nhfb > NHFB_LIMIT {
            self.nhfb = NHFB_RESET;
            let pair: u32 = self.nlzb;
            assert(pair >> 1 == pair / 2) by (bit_vector);
            self.nlzb = pair >> 1;
        }
        let byte: u8 = self.table.lookup(rank);
        self.window.push_literal(byte);
        self.dest_unp_size = self.dest_unp_size - 1;
        self.table.promote(rank);
        proof {
            self.window.lemma_history_fits();
        }
        self.num_huf = self.num_huf + 1;
        if self.mode == DecoderMode::LiteralHuffmanMode && self.num_huf >= LITERAL_RUN
            && self.flags_cnt == 0 {
            self.mode = DecoderMode::RunLengthMode;
        }
        Ok(())
    }

    /// Reads what follows rank zero in run-length mode, short of the
    /// escape.  The reader may be left advanced when this fails.
    fn decode_run(&mut self) -> (r: Result<(), UnpackError>)
        requires
            old(self).wf(),
        ensures
            final(self).wf(),
            match old(self)@.run_length() {
                Ok(s) => r == Ok::<(), UnpackError>(()) && final(self)@ == s,
                Err(e) => r == Err::<(), UnpackError>(e) && final(self)@ == (UnpackState {
                    input: final(self)@.input,
                    ..old(self)@
                }),
            },
    {
        let flags: u32 = self.inp.fgetbits();
        match self.inp.faddbits(1) {
            Err(e) => {
                return Err(e);
            },
            Ok(()) => {},
        }
        proof {
            self.inp.lemma_view_wf();
            assert((flags & 0x8000 != 0) == (flags >= 0x8000)) by (bit_vector)
                requires
                    flags <= 0xffff,
            ;
            assert((flags & 0x4000 != 0) == (flags % 0x8000 >= 0x4000)) by (bit_vector)
                requires
                    flags <= 0xffff,
            ;
        }
        if (flags & 0x8000) != 0 {
            self.mode = DecoderMode::LiteralHuffmanMode;
            self.num_huf = 0;
            return Ok(());
        }
        let length: u32 = if (flags & 0x4000) != 0 {
            4
        } else {
            3
        };
        match self.inp.faddbits(1) {
            Err(e) => {
                return Err(e);
            },
            Ok(()) => {},
        }
        proof {
            self.inp.lemma_view_wf();
        }
        let field: u32 = self.inp.fgetbits();
        let high: u32 = match self.decode_num(
            field,
            DISTANCE_START,
            DISTANCE_BOUNDARY.as_slice(),
            DISTANCE_BASE.as_slice(),
        ) {
            Err(e) => {
                return Err(e);
            },
            Ok(symbol) => symbol,
        };
        let tail: u32 = self.inp.fgetbits();
        let distance: u32 = (high << 5) | (tail >> 11);
        proof {
            assert((high << 5) | (tail >> 11) == high * 32 + tail / 2048) by (bit_vector)
                requires
                    high < 256,
                    tail <= 0xffff,
            ;
        }
        match self.inp.faddbits(5) {
            Err(e) => {
                return Err(e);
            },
            Ok(()) => {},
        }
        proof {
            self.inp.lemma_view_wf();
        }
        self.copy_string15(distance, length)
    }

    /// Decodes one symbol and acts on it: one step of the state machine.
    ///
    /// A step emits a literal, the two-byte escape or the run of a
    /// back-reference, or switches from run-length to literal mode.  A
    /// refused step reports why and leaves the session as it was.
    pub fn huff_decode(&mut self) -> (r: Result<(), UnpackError>)
        requires
            old(self).wf(),
        ensures
            final(self).wf(),
            match old(self)@.step() {
                Ok(s) => r == Ok::<(), UnpackError>(()) && final(self)@ == s,
                Err(e) => r == Err::<(), UnpackError>(e) && final(self)@ == old(self)@,
            },
    {
        let saved: BitInput<'a> = self.inp;
        let bit_field: u32 = self.inp.fgetbits();
        let byte_place: u32 = match self.decode_num(
            bit_field,
            LITERAL_START,
            LITERAL_BOUNDARY.as_slice(),
            LITERAL_BASE.as_slice(),
        ) {
            Err(e) => {
                self.inp = saved;
                return Err(e);
            },
            Ok(symbol) => symbol,
        };
        let outcome: Result<(), UnpackError> = if self.mode == DecoderMode::RunLengthMode
            && byte_place == 0 {
            if bit_field > ESCAPE_THRESHOLD {
                if self.dest_unp_size < 2 {
                    Err(UnpackError::OutputOverrun)
                } else {
                    self.window.push_literal(ESCAPE_HIGH);
                    self.window.push_literal(ESCAPE_LOW);
                    self.dest_unp_size = self.dest_unp_size - 2;
                    Ok(())
                }
            } else {
                self.decode_run()
            }
        } else {
            self.decode_literal(byte_place as u8)
        };
        if outcome.is_err() {
            self.inp = saved;
        }
        outcome
    }
}

/// Takes steps until the session owes no more bytes or a step is refused.
///
/// The session ends in the state the model's run ends in.  A run that no
/// step refused ends owing exactly nothing; what is owed never grows.
pub fn unpack_loop(unpack: &mut Unpack) -> (r: Result<(), UnpackError>)
    requires
        old(unpack).wf(),
    ensures
        final(unpack).wf(),
        final(unpack)@ == old(unpack)@.run().0,
        r == (match old(unpack)@.run().1 {
            None => Ok::<(), UnpackError>(()),
            Some(e) => Err::<(), UnpackError>(e),
        }),
        r is Ok ==> final(unpack)@.remaining == 0,
        final(unpack)@.remaining <= old(unpack)@.remaining,
        final(unpack)@.window.history.len() + final(unpack)@.remaining == old(
            unpack,
        )@.window.history.len() + old(unpack)@.remaining,
        final(unpack)@.keeps(old(unpack)@),
{
    proof {
        unpack.lemma_view_wf();
        lemma_run(old(unpack)@);
    }
    while unpack.dest_unp_size > 0
        invariant
            unpack.wf(),
            old(unpack)@.wf(),
            unpack@.run() == old(unpack)@.run(),
        decreases unpack@.remaining, unpack@.input.bits_left(),
    {
        proof {
            if unpack@.step() is Ok {
                lemma_step_progress(unpack@);
            }
        }
        match unpack.huff_decode() {
            Err(e) => {
                proof {
                    lemma_run(old(unpack)@);
                }
                return Err(e);
            },
            Ok(()) => {},
        }
    }
    Ok(())
}

/// Unpacks one compressed segment: `raw` is decoded until `dest_unp_size`
/// bytes are produced, through a window of `window_capacity` bytes.
///
/// The result is the output of the model's run from the initial state: all
/// `dest_unp_size` bytes where no step was refused, and else the reason,
/// the index of the source byte at which the refused step began, and, where
/// `keep_partial` is set, the output produced until then.
pub fn unpack_rar_file(
    raw: &[u8],
    dest_unp_size: usize,
    window_capacity: usize,
    keep_partial: bool,
) -> (r: Result<Vec<u8>, UnpackFailure>)
    requires
        window_capacity > 0,
    ensures
        ({
            let start = BitState { source: raw@, bit_pos: 0 };
            let (end, stop) = UnpackState::initial(
                start,
                window_capacity as nat,
                dest_unp_size as nat,
            ).run();
            match stop {
                None => r matches Ok(v) && v@ == end.window.history && v@.len() == dest_unp_size,
                Some(e) => r matches Err(f) && f.kind == e && f.offset == end.input.bit_pos / 8
                    && f.partial@ == (if keep_partial {
                    end.window.history
                } else {
                    Seq::<u8>::empty()
                }),
            }
        }),
{
    let mut unpack = Unpack::new(BitInput::new(raw), window_capacity, dest_unp_size);
    match unpack_loop(&mut unpack) {
        Ok(()) => Ok(unpack.into_output()),
        Err(kind) => {
            let offset: usize = unpack.inp.byte_offset();
            let partial: Vec<u8> = if keep_partial {
                unpack.into_output()
            } else {
                Vec::new()
            };
            Err(UnpackFailure { kind, offset, partial })
        },
    }
}

} // verus!
