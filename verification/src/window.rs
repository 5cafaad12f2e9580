//! The output of a session and the circular window over its recent part.
//!
//! The model of a window is the whole history of bytes produced so far,
//! together with the capacity of the circular buffer.  Byte `t` of the
//! history is written at position `t % capacity`, so the buffer always holds
//! the last `capacity` bytes, and a back-reference of distance `d` names the
//! byte `d` places behind the end of the history.

use vstd::prelude::*;
use vstd::arithmetic::div_mod::{
    lemma_fundamental_div_mod,
    lemma_fundamental_div_mod_converse,
    lemma_mod_bound,
    lemma_mod_decreases,
};
use crate::error::UnpackError;

verus! {

/// What a window is: every byte produced so far, and the buffer's capacity.
pub struct WindowState {
    pub history: Seq<u8>,
    pub capacity: nat,
}

impl WindowState {
    /// A window has room for at least one byte.
    pub open spec fn wf(self) -> bool {
        self.capacity > 0
    }

    /// An empty window of the given capacity.
    pub open spec fn empty(capacity: nat) -> WindowState {
        WindowState { history: Seq::empty(), capacity }
    }

    /// The position the next byte is written at.
    pub open spec fn cursor(self) -> nat {
        self.history.len() % self.capacity
    }

    /// How far back a reference may reach: the part of the history that the
    /// buffer still holds.
    pub open spec fn available(self) -> nat {
        if self.history.len() <= self.capacity {
            self.history.len()
        } else {
            self.capacity
        }
    }

    /// The buffer position `offset` places after the cursor, or before it
    /// for a negative offset.
    pub open spec fn position(self, offset: int) -> int {
        (self.cursor() + offset) % (self.capacity as int)
    }

    /// Whether `distance` names a byte of the held history.
    pub open spec fn valid_distance(self, distance: nat) -> bool {
        1 <= distance <= self.available()
    }

    /// The index in the history of the byte that position `j` of the buffer
    /// holds: the most recent one written there.  It is negative where none
    /// was written yet.
    pub open spec fn written_at(self, j: int) -> int {
        let newest = self.history.len() - 1;
        newest - (newest - j) % (self.capacity as int)
    }

    /// The byte at position `j` of the buffer: the most recent byte of the
    /// history written there, or zero if none was.
    pub open spec fn byte_at(self, j: int) -> u8 {
        let t = self.written_at(j);
        if t >= 0 {
            self.history[t]
        } else {
            0
        }
    }

    /// The buffer, position by position.
    pub open spec fn contents(self) -> Seq<u8> {
        Seq::new(self.capacity, |j: int| self.byte_at(j))
    }

    /// The window after one more byte.
    pub open spec fn push(self, byte: u8) -> WindowState {
        WindowState { history: self.history.push(byte), capacity: self.capacity }
    }

    /// The window after a run of `length` bytes copied from `distance` back,
    /// one byte at a time: each byte repeats the one `distance` places before
    /// it, which may itself belong to the run.
    pub open spec fn copy_back(self, distance: nat, length: nat) -> WindowState
        decreases length,
    {
        if length == 0 {
            self
        } else {
            let prev = self.copy_back(distance, (length - 1) as nat);
            prev.push(prev.history[prev.history.len() - distance])
        }
    }
}

/// The remainder of a successor.
proof fn lemma_mod_succ(x: int, c: int)
    requires
        c > 0,
    ensures
        (x + 1) % c == (if x % c == c - 1 {
            0
        } else {
            x % c + 1
        }),
{
    lemma_fundamental_div_mod(x, c);
    lemma_mod_bound(x, c);
    let q = x / c;
    let r = x % c;
    if r == c - 1 {
        assert(x + 1 == (q + 1) * c + 0) by (nonlinear_arith)
            requires
                x == c * q + r,
                r == c - 1,
        ;
        lemma_fundamental_div_mod_converse(x + 1, c, q + 1, 0);
    } else {
        assert(x + 1 == q * c + (r + 1)) by (nonlinear_arith)
            requires
                x == c * q + r,
        ;
        lemma_fundamental_div_mod_converse(x + 1, c, q, r + 1);
    }
}

/// A number that is a remainder plus a multiple has that remainder.
proof fn lemma_mod_of_sum(q: int, r: int, c: int)
    requires
        c > 0,
        0 <= r < c,
    ensures
        (c * q + r) % c == r,
        (c * q + r) / c == q,
{
    assert(c * q + r == q * c + r) by (nonlinear_arith);
    lemma_fundamental_div_mod_converse(c * q + r, c, q, r);
}

/// The buffer holds each of the last `capacity` bytes of the history at its
/// own position.
pub proof fn lemma_byte_at_recent(s: WindowState, t: int)
    requires
        s.wf(),
        0 <= t < s.history.len(),
        s.history.len() - t <= s.capacity,
    ensures
        s.written_at(t % (s.capacity as int)) == t,
        s.byte_at(t % (s.capacity as int)) == s.history[t],
{
    let c = s.capacity as int;
    let n = s.history.len() as int;
    lemma_fundamental_div_mod(t, c);
    lemma_mod_bound(t, c);
    let q = t / c;
    let j = t % c;
    assert(n - 1 - j == c * q + (n - 1 - t));
    lemma_mod_of_sum(q, n - 1 - t, c);
}

/// A new byte lands at the cursor and leaves every other position alone.
pub proof fn lemma_byte_at_push(s: WindowState, byte: u8, j: int)
    requires
        s.wf(),
        0 <= j < s.capacity,
    ensures
        s.push(byte).byte_at(j) == (if j == s.cursor() {
            byte
        } else {
            s.byte_at(j)
        }),
        s.push(byte).cursor() == (if s.cursor() + 1 == s.capacity {
            0
        } else {
            s.cursor() + 1
        }),
{
    let c = s.capacity as int;
    let n = s.history.len() as int;
    let x = n - 1 - j;
    lemma_mod_succ(x, c);
    lemma_mod_succ(n, c);
    lemma_mod_bound(x, c);
    lemma_fundamental_div_mod(n, c);
    lemma_mod_bound(n, c);
    lemma_fundamental_div_mod(x + 1, c);
    if (x + 1) % c == 0 {
        // n - j is a multiple of the capacity, so j is the cursor
        let k = (x + 1) / c;
        assert(n == c * k + j);
        lemma_mod_of_sum(k, j, c);
    } else {
        if j == n % c {
            let k = n / c;
            assert(x + 1 == c * k + 0);
            lemma_mod_of_sum(k, 0, c);
        }
    }
}

/// The run of a back-reference extends the history by `length` bytes, keeps
/// what was there, and repeats with period `distance`.
pub proof fn lemma_copy_back_history(s: WindowState, distance: nat, length: nat)
    requires
        1 <= distance <= s.history.len(),
    ensures
        s.copy_back(distance, length).capacity == s.capacity,
        s.copy_back(distance, length).history.len() == s.history.len() + length,
        forall|t: int|
            0 <= t < s.history.len() ==> s.copy_back(distance, length).history[t] == s.history[t],
        forall|t: int|
            s.history.len() <= t < s.history.len() + length ==> #[trigger] s.copy_back(
                distance,
                length,
            ).history[t] == s.copy_back(distance, length).history[t - distance],
    decreases length,
{
    if length > 0 {
        lemma_copy_back_history(s, distance, (length - 1) as nat);
    }
}

/// A back-reference within the held history keeps the reach of later ones.
pub proof fn lemma_copy_back_available(s: WindowState, distance: nat, length: nat)
    requires
        s.wf(),
        s.valid_distance(distance),
    ensures
        s.copy_back(distance, length).wf(),
        s.copy_back(distance, length).valid_distance(distance),
{
    lemma_copy_back_history(s, distance, length);
}

/// Of the bytes written at a position, the buffer holds the most recent.
pub proof fn lemma_written_at(s: WindowState, t: int)
    requires
        s.wf(),
        0 <= t < s.history.len(),
    ensures
        t <= s.written_at(t % (s.capacity as int)) < s.history.len(),
{
    let c = s.capacity as int;
    let n = s.history.len() as int;
    lemma_fundamental_div_mod(t, c);
    lemma_mod_bound(t, c);
    let q = t / c;
    let j = t % c;
    // newest - j and newest - t differ by a multiple of the capacity
    lemma_same_position(n - 1 - j, n - 1 - t, q, c);
    lemma_mod_decreases((n - 1 - t) as nat, c as nat);
    lemma_mod_bound(n - 1 - j, c);
}

/// From `distance` before its start to its end, the history after a run
/// repeats with period `distance`: every byte there is the byte of the same
/// phase among the last `distance` bytes before the run.
pub proof fn lemma_copy_back_periodic(s: WindowState, distance: nat, length: nat, t: int)
    requires
        1 <= distance <= s.history.len(),
        s.history.len() - distance <= t < s.history.len() + length,
    ensures
        s.copy_back(distance, length).history[t] == s.history[s.history.len() - distance + (t - (
            s.history.len() - distance)) % (distance as int)],
    decreases t,
{
    let n = s.history.len() as int;
    let d = distance as int;
    lemma_copy_back_history(s, distance, length);
    if t < n {
        lemma_mod_of_sum(0, t - (n - d), d);
    } else {
        lemma_copy_back_periodic(s, distance, length, t - d);
        lemma_same_position(t - (n - d), t - d - (n - d), 1, d);
    }
}

/// In the buffer after a run, position `cursor + k` holds what position
/// `cursor + k - distance` holds, for every `k` of the run at which the two
/// positions were last written in the same phase of the run: where the
/// bytes they hold lie a multiple of `distance` apart in the history.  A run
/// may overlap its source.
pub proof fn lemma_copy_back_window(s: WindowState, distance: nat, length: nat, k: int)
    requires
        s.wf(),
        s.valid_distance(distance),
        0 <= k < length,
        (s.copy_back(distance, length).written_at(s.position(k)) - s.copy_back(
            distance,
            length,
        ).written_at(s.position(k - distance))) % (distance as int) == 0,
    ensures
        s.copy_back(distance, length).byte_at(s.position(k)) == s.copy_back(
            distance,
            length,
        ).byte_at(s.position(k - distance)),
{
    let after = s.copy_back(distance, length);
    let c = s.capacity as int;
    let n = s.history.len() as int;
    let d = distance as int;
    lemma_copy_back_history(s, distance, length);
    lemma_fundamental_div_mod(n, c);
    let q = n / c;
    // the bytes of the run and of its source were written at the two positions
    lemma_same_position(n + k, s.cursor() + k, q, c);
    lemma_same_position(n + k - d, s.cursor() + (k - d), q, c);
    lemma_written_at(after, n + k);
    lemma_written_at(after, n + k - d);
    let t1 = after.written_at(s.position(k));
    let t2 = after.written_at(s.position(k - d));
    lemma_copy_back_periodic(s, distance, length, t1);
    lemma_copy_back_periodic(s, distance, length, t2);
    lemma_fundamental_div_mod(t1 - t2, d);
    lemma_same_position(t1 - (n - d), t2 - (n - d), (t1 - t2) / d, d);
}

/// A run that does not wrap onto its own source reads as a copy in the
/// buffer: position `cursor + k` holds what position `cursor + k - distance`
/// holds, for every `k` of the run, also where the run overlaps its source.
pub proof fn lemma_copy_back_window_unwrapped(s: WindowState, distance: nat, length: nat)
    requires
        s.wf(),
        s.valid_distance(distance),
        distance + length <= s.capacity,
    ensures
        forall|k: int|
            0 <= k < length ==> s.copy_back(distance, length).byte_at(#[trigger] s.position(k))
                == s.copy_back(distance, length).byte_at(s.position(k - distance)),
{
    let after = s.copy_back(distance, length);
    let c = s.capacity as int;
    let n = s.history.len() as int;
    let d = distance as int;
    lemma_copy_back_history(s, distance, length);
    assert forall|k: int| 0 <= k < length implies after.byte_at(#[trigger] s.position(k))
        == after.byte_at(s.position(k - distance)) by {
        lemma_fundamental_div_mod(n, c);
        let q = n / c;
        // the buffer still holds the byte of the run and the byte of its source
        lemma_byte_at_recent(after, n + k);
        lemma_byte_at_recent(after, n + k - d);
        lemma_same_position(n + k, s.cursor() + k, q, c);
        lemma_same_position(n + k - d, s.cursor() + (k - d), q, c);
        lemma_mod_of_sum(1, 0, d);
        lemma_copy_back_window(s, distance, length, k);
    }
}

/// Two numbers that differ by a multiple have the same remainder.
proof fn lemma_same_position(a: int, b: int, q: int, c: int)
    requires
        c > 0,
        a == c * q + b,
    ensures
        a % c == b % c,
{
    lemma_fundamental_div_mod(b, c);
    lemma_mod_bound(b, c);
    let qb = b / c;
    assert(a == c * (q + qb) + b % c) by (nonlinear_arith)
        requires
            a == c * q + b,
            b == c * qb + b % c,
    ;
    lemma_mod_of_sum(q + qb, b % c, c);
}

/// The output of one session: every byte produced so far, and the circular
/// buffer over the most recent ones, which back-references read.
pub struct OutputWindow {
    buf: Vec<u8>,
    cursor: usize,
    out: Vec<u8>,
}

impl View for OutputWindow {
    type V = WindowState;

    closed spec fn view(&self) -> WindowState {
        WindowState { history: self.out@, capacity: self.buf@.len() }
    }
}

impl OutputWindow {
    /// The buffer and the cursor are those of the model.
    pub closed spec fn wf(&self) -> bool {
        &&& self@.wf()
        &&& self.cursor == self@.cursor()
        &&& self.buf@ =~= self@.contents()
    }

    /// Validity of the window carries over to its model.
    pub proof fn lemma_view_wf(&self)
        requires
            self.wf(),
        ensures
            self@.wf(),
    {
    }

    /// The history is no longer than the machine can index.
    pub proof fn lemma_history_fits(&self)
        requires
            self.wf(),
        ensures
            self@.history.len() <= usize::MAX,
    {
        assert(self.out.len() == self.out@.len());
    }

    /// An empty window with a zero-filled buffer of `capacity` bytes.
    pub fn new(capacity: usize) -> (r: Self)
        requires
            capacity > 0,
        ensures
            r.wf(),
            r@ == WindowState::empty(capacity as nat),
    {
        let r = OutputWindow { buf: vec![0u8; capacity], cursor: 0, out: Vec::new() };
        proof {
            assert(r@.history =~= Seq::<u8>::empty());
            assert(r.buf@ =~= r@.contents());
        }
        r
    }

    /// The size of the circular buffer.
    pub fn capacity(&self) -> (r: usize)
        requires
            self.wf(),
        ensures
            r == self@.capacity,
    {
        self.buf.len()
    }

    /// The position the next byte is written at.
    pub fn cursor(&self) -> (r: usize)
        requires
            self.wf(),
        ensures
            r == self@.cursor(),
    {
        self.cursor
    }

    /// The number of bytes produced so far.
    pub fn produced(&self) -> (r: usize)
        requires
            self.wf(),
        ensures
            r == self@.history.len(),
    {
        self.out.len()
    }

    /// How far back a reference may reach.
    pub fn available(&self) -> (r: usize)
        requires
            self.wf(),
        ensures
            r == self@.available(),
    {
        if self.out.len() <= self.buf.len() {
            self.out.len()
        } else {
            self.buf.len()
        }
    }

    /// The byte at `position` of the circular buffer.
    pub fn get(&self, position: usize) -> (r: u8)
        requires
            self.wf(),
            position < self@.capacity,
        ensures
            r == self@.byte_at(position as int),
    {
        self.buf[position]
    }

    /// Every byte produced so far, oldest first.
    pub fn output(&self) -> (r: &Vec<u8>)
        requires
            self.wf(),
        ensures
            r@ == self@.history,
    {
        &self.out
    }

    /// Gives up the window and hands out every byte produced, oldest first.
    pub fn into_output(self) -> (r: Vec<u8>)
        requires
            self.wf(),
        ensures
            r@ == self@.history,
    {
        self.out
    }

    /// The byte `distance` places behind the end of the history.
    fn peek_back(&self, distance: usize) -> (r: u8)
        requires
            self.wf(),
            self@.valid_distance(distance as nat),
        ensures
            r == self@.history[self@.history.len() - distance],
    {
        let from: usize = if distance <= self.cursor {
            self.cursor - distance
        } else {
            self.cursor + (self.buf.len() - distance)
        };
        proof {
            let c = self@.capacity as int;
            let n = self@.history.len() as int;
            lemma_fundamental_div_mod(n, c);
            lemma_mod_bound(n, c);
            let q = n / c;
            if distance <= self.cursor {
                lemma_mod_of_sum(q, from as int, c);
            } else {
                assert(n - distance == c * (q - 1) + from) by (nonlinear_arith)
                    requires
                        n == c * q + self.cursor,
                        from == self.cursor + (c - distance),
                ;
                lemma_mod_of_sum(q - 1, from as int, c);
            }
            lemma_byte_at_recent(self@, n - distance);
        }
        self.buf[from]
    }

    /// Writes one byte at the cursor and advances the cursor, wrapping at
    /// the capacity.
    pub fn push_literal(&mut self, byte: u8)
        requires
            old(self).wf(),
        ensures
            final(self).wf(),
            final(self)@ == old(self)@.push(byte),
    {
        let ghost before = self@;
        proof {
            lemma_mod_bound(before.history.len() as int, before.capacity as int);
        }
        let at: usize = self.cursor;
        let capacity: usize = self.buf.len();
        let next: usize = if at + 1 == capacity {
            0
        } else {
            at + 1
        };
        self.buf[at] = byte;
        self.out.push(byte);
        self.cursor = next;
        proof {
            lemma_byte_at_push(before, byte, 0);
            assert forall|j: int| 0 <= j < self.buf@.len() implies self.buf@[j] == self@.byte_at(
                j,
            ) by {
                lemma_byte_at_push(before, byte, j);
                assert(before.contents()[j] == before.byte_at(j));
            }
        }
    }

    /// Copies a run of `length` bytes from `distance` back, one byte at a
    /// time, so that a run longer than its distance repeats itself.
    ///
    /// Fails with `InvalidBackReference`, writing nothing, when `distance`
    /// is zero or reaches behind the history that the buffer holds.
    pub fn copy_back(&mut self, distance: u32, length: u32) -> (r: Result<(), UnpackError>)
        requires
            old(self).wf(),
        ensures
            final(self).wf(),
            old(self)@.valid_distance(distance as nat) ==> r == Ok::<(), UnpackError>(())
                && final(self)@ == old(self)@.copy_back(distance as nat, length as nat),
            !old(self)@.valid_distance(distance as nat) ==> r == Err::<(), UnpackError>(
                UnpackError::InvalidBackReference,
            ) && final(self)@ == old(self)@,
    {
        if distance == 0 || distance as usize > self.available() {
            return Err(UnpackError::InvalidBackReference);
        }
        let mut k: u32 = 0;
        while k < length
            invariant
                k <= length,
                self.wf(),
                old(self)@.wf(),
                old(self)@.valid_distance(distance as nat),
                self@ == old(self)@.copy_back(distance as nat, k as nat),
            decreases length - k,
        {
            proof {
                lemma_copy_back_available(old(self)@, distance as nat, k as nat);
            }
            let byte: u8 = self.peek_back(distance as usize);
            self.push_literal(byte);
            k = k + 1;
        }
        Ok(())
    }
}

} // verus!
