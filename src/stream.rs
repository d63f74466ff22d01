use crate::error::Errors;
use crate::wire::{PACKET_END, PACKET_START};
use vstd::prelude::*;

verus! {

/// Capacity of the buffer of a [`BufferedStream`].
pub const BUFFER_SIZE: usize = 512;

/// Whether a byte counts towards a checksum: the framing bytes `$` and `#` never do.
pub open spec fn counts(b: u8) -> bool {
    b != PACKET_START && b != PACKET_END
}

/// Sum of the bytes of `s` that count towards a checksum.
pub open spec fn byte_total(s: Seq<u8>) -> nat
    decreases s.len(),
{
    if s.len() == 0 {
        0
    } else {
        byte_total(s.drop_last()) + if counts(s.last()) {
            s.last() as nat
        } else {
            0
        }
    }
}

/// The running checksum that a sink keeps over the bytes `s` written to it.
pub open spec fn sink_sum(s: Seq<u8>) -> u32 {
    (byte_total(s) % 0x1_0000_0000) as u32
}

/// The sum over two pieces is the sum over each.
pub proof fn lemma_byte_total_concat(a: Seq<u8>, b: Seq<u8>)
    ensures
        byte_total(a + b) == byte_total(a) + byte_total(b),
    decreases b.len(),
{
    if b.len() > 0 {
        assert((a + b).drop_last() =~= a + b.drop_last());
        lemma_byte_total_concat(a, b.drop_last());
    } else {
        assert(a + b =~= a);
    }
}

/// Draining does not disturb the checksum: bytes written in one go give the
/// same checksum as the same bytes written in two parts with a drain between,
/// where the running sum of the first part is carried on over the second.
pub proof fn lemma_sum_resumes(first: Seq<u8>, rest: Seq<u8>)
    ensures
        sink_sum(first + rest) == ((sink_sum(first) + byte_total(rest)) % 0x1_0000_0000) as u32,
{
    lemma_byte_total_concat(first, rest);
    vstd::arithmetic::div_mod::lemma_add_mod_noop(
        byte_total(first) as int,
        byte_total(rest) as int,
        0x1_0000_0000,
    );
    vstd::arithmetic::div_mod::lemma_add_mod_noop(
        sink_sum(first) as int,
        byte_total(rest) as int,
        0x1_0000_0000,
    );
    vstd::arithmetic::div_mod::lemma_mod_twice(byte_total(first) as int, 0x1_0000_0000);
}

/// How a writer of `k` bytes uses the room in a sink: it fails only when the
/// bytes do not fit after the cursor, and when they fit the cursor moves on by `k`.
pub open spec fn advances<S: Stream>(before: S, after: S, k: nat, ok: bool) -> bool {
    &&& !ok ==> before.cursor() + k > before.capacity()
    &&& ok && before.cursor() + k <= before.capacity() ==> after.cursor() == before.cursor() + k
}

/// Whether a sink is full and cannot be drained: any write to it fails.
pub open spec fn is_stuck<S: Stream>(s: S) -> bool {
    s.cursor() >= s.capacity() && !s.can_drain()
}

/// Where the cursor of a sink stands after one more byte: a full sink is
/// drained first, so the byte lands at its start.
pub open spec fn next_cursor(cursor: nat, capacity: nat) -> nat {
    if cursor < capacity {
        cursor + 1
    } else {
        1
    }
}

/// A bounded byte destination that keeps a running checksum.
///
/// `written` is every byte accepted since the last reset, including those that
/// were drained when the sink filled up; the checksum always covers all of them.
pub trait Stream {
    spec fn inv(&self) -> bool;

    spec fn written(&self) -> Seq<u8>;

    spec fn cursor(&self) -> nat;

    spec fn capacity(&self) -> nat;

    /// Whether a full sink would be drained now, so that writing goes on.
    spec fn can_drain(&self) -> bool;

    /// Appends one byte. When the sink is full it may drain its contents and
    /// start over at position zero; if it cannot, the write fails and nothing changes.
    fn write(&mut self, byte: u8) -> (r: Result<usize, Errors>)
        requires
            old(self).inv(),
        ensures
            final(self).inv(),
            final(self).capacity() == old(self).capacity(),
            r matches Ok(n) ==> n == 1 && final(self).written() == old(self).written().push(byte)
                && final(self).cursor() == next_cursor(old(self).cursor(), old(self).capacity()),
            r matches Err(e) ==> e == Errors::MemoryFilledInterupt && old(self).cursor()
                >= old(self).capacity() && final(self).written() == old(self).written()
                && final(self).cursor() == old(self).cursor(),
            old(self).cursor() >= old(self).capacity() ==> (r is Ok) == old(self).can_drain(),
    ;

    /// Starts a new reply: the cursor goes back to zero and the checksum is cleared.
    fn reset(&mut self)
        requires
            old(self).inv(),
        ensures
            final(self).inv(),
            final(self).capacity() == old(self).capacity(),
            final(self).written() == Seq::<u8>::empty(),
            final(self).cursor() == 0,
    ;

    fn pos(&self) -> (r: usize)
        requires
            self.inv(),
        ensures
            r == self.cursor(),
    ;

    fn len(&self) -> (r: usize)
        requires
            self.inv(),
        ensures
            r == self.capacity(),
    ;

    fn chksm(&self) -> (r: u32)
        requires
            self.inv(),
        ensures
            r == sink_sum(self.written()),
    ;
}

/// Where a full [`BufferedStream`] hands its contents before it starts over.
pub trait Drain {
    /// Whether this drain takes `data` when it is handed over; by default, always.
    open spec fn will_take(&self, data: Seq<u8>) -> bool {
        true
    }

    /// Takes the full buffer; returns whether it was sent on, so that the
    /// buffer may be reused.
    fn drain(&mut self, data: &[u8]) -> (r: bool)
        ensures
            r == old(self).will_take(data@),
    ;
}

/// A drain that never takes anything: a full stream then refuses further bytes.
#[derive(Debug, Clone, Copy, PartialEq, Eq)]
pub struct NoDrain;

impl Drain for NoDrain {
    open spec fn will_take(&self, data: Seq<u8>) -> bool {
        false
    }

    fn drain(&mut self, _data: &[u8]) -> (r: bool) {
        false
    }
}

/// A sink over a fixed buffer of [`BUFFER_SIZE`] bytes. The first `cursor`
/// bytes of `buffer` are the bytes written since the buffer was last drained.
pub struct BufferedStream<D = NoDrain> {
    pub buffer: Vec<u8>,
    pub cursor: usize,
    /// The running checksum.
    pub sum: u32,
    pub drain: D,
    /// Every byte written since the last reset.
    pub history: Ghost<Seq<u8>>,
}

/// Adding one byte to the running sum.
pub(crate) proof fn lemma_sum_push(s: Seq<u8>, b: u8)
    ensures
        sink_sum(s.push(b)) == ((sink_sum(s) + if counts(b) {
            b as nat
        } else {
            0
        }) % 0x1_0000_0000) as u32,
{
    assert(s.push(b).drop_last() =~= s);
    let c: nat = if counts(b) {
        b as nat
    } else {
        0
    };
    let t = byte_total(s);
    assert((t + c) % 0x1_0000_0000 == ((t % 0x1_0000_0000) + c) % 0x1_0000_0000) by {
        vstd::arithmetic::div_mod::lemma_add_mod_noop(t as int, c as int, 0x1_0000_0000);
        vstd::arithmetic::div_mod::lemma_mod_twice(c as int, 0x1_0000_0000);
        vstd::arithmetic::div_mod::lemma_small_mod(c, 0x1_0000_0000);
    }
}

impl<D: Drain> BufferedStream<D> {
    /// What the buffer holds before the cursor.
    pub open spec fn buffered(&self) -> Seq<u8> {
        self.buffer@.take(self.cursor() as int)
    }

    /// The buffer holds the bytes written since it was last drained: the
    /// last `cursor` bytes written.
    pub proof fn lemma_buffer_holds_tail(&self)
        requires
            self.inv(),
        ensures
            self.buffered() == self.written().skip(self.written().len() - self.cursor()),
    {
    }
}

impl BufferedStream<NoDrain> {
    /// An empty stream that fails once its buffer is full.
    pub fn new() -> (s: Self)
        ensures
            s.inv(),
            s.buffer@ == Seq::new(BUFFER_SIZE as nat, |i: int| 0u8),
            s.written() == Seq::<u8>::empty(),
            s.cursor() == 0,
            s.capacity() == BUFFER_SIZE,
    {
        Self::with_drain(NoDrain)
    }
}

impl<D: Drain> BufferedStream<D> {
    /// An empty stream that hands its buffer to `drain` whenever it fills up.
    pub fn with_drain(drain: D) -> (s: Self)
        ensures
            s.inv(),
            s.buffer@ == Seq::new(BUFFER_SIZE as nat, |i: int| 0u8),
            s.written() == Seq::<u8>::empty(),
            s.cursor() == 0,
            s.capacity() == BUFFER_SIZE,
    {
        let buffer: Vec<u8> = vec![0u8; BUFFER_SIZE];
        let s = BufferedStream { buffer, cursor: 0, sum: 0, drain, history: Ghost(Seq::empty()) };
        assert(s.buffer@ =~= Seq::new(BUFFER_SIZE as nat, |i: int| 0u8));
        assert(s.buffer@.take(0) =~= s.history@.skip(0));
        s
    }
}

impl<D: Drain> Stream for BufferedStream<D> {
    open spec fn inv(&self) -> bool {
        &&& self.buffer@.len() == BUFFER_SIZE
        &&& self.cursor <= BUFFER_SIZE
        &&& self.cursor <= self.history@.len()
        &&& self.sum == sink_sum(self.history@)
        &&& self.buffer@.take(self.cursor as int) == self.history@.skip(
            self.history@.len() - self.cursor,
        )
    }

    open spec fn written(&self) -> Seq<u8> {
        self.history@
    }

    open spec fn cursor(&self) -> nat {
        self.cursor as nat
    }

    open spec fn capacity(&self) -> nat {
        BUFFER_SIZE as nat
    }

    open spec fn can_drain(&self) -> bool {
        self.drain.will_take(self.buffer@)
    }

    /// A full buffer is handed to the drain; the write fails exactly when the
    /// drain refuses it.
    fn write(&mut self, byte: u8) -> (r: Result<usize, Errors>)
        ensures
            old(self).cursor() < old(self).capacity() ==> r is Ok && final(self).drain
                == old(self).drain,
            r is Ok ==> final(self).buffer@ == old(self).buffer@.update(
                if old(self).cursor() < old(self).capacity() {
                    old(self).cursor() as int
                } else {
                    0
                },
                byte,
            ),
            r is Err ==> final(self).buffer@ == old(self).buffer@,
            final(self).buffer@.len() == old(self).buffer@.len(),
    {
        if self.cursor >= self.buffer.len() {
            if !self.drain.drain(self.buffer.as_slice()) {
                return Err(Errors::MemoryFilledInterupt);
            }
            self.cursor = 0;
        }
        let ghost c0 = self.cursor as int;
        let ghost h0 = self.history@;
        assert(self.buffer@.take(c0) == h0.skip(h0.len() - c0)) by {
            if c0 == 0 {
                assert(self.buffer@.take(0) =~= h0.skip(h0.len() as int));
            }
        }
        self.buffer.set(self.cursor, byte);
        assert(self.buffer@.take(c0 + 1) =~= h0.skip(h0.len() - c0).push(byte));
        assert(h0.push(byte).skip(h0.len() + 1 - (c0 + 1)) =~= h0.skip(h0.len() - c0).push(byte));
        self.cursor = self.cursor + 1;
        proof {
            lemma_sum_push(self.history@, byte);
        }
        if byte != PACKET_START && byte != PACKET_END {
            self.sum = self.sum.wrapping_add(byte as u32);
        }
        self.history = Ghost(self.history@.push(byte));
        assert(self.buffer@.take(self.cursor as int) =~= self.history@.skip(
            self.history@.len() - self.cursor,
        ));
        Ok(1)
    }

    fn reset(&mut self) {
        self.cursor = 0;
        self.sum = 0;
        self.history = Ghost(Seq::empty());
        assert(self.buffer@.take(0) =~= self.history@.skip(0));
    }

    fn pos(&self) -> (r: usize) {
        self.cursor
    }

    fn len(&self) -> (r: usize) {
        self.buffer.len()
    }

    fn chksm(&self) -> (r: u32) {
        self.sum
    }
}

} // verus!
