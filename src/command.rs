use crate::error::Errors;
use crate::basic::required::{
    read_args, status_text, write_args, ReadMemoryCommand, ReadRegistersCommand, ReasonCommand,
    WriteMemoryCommand, WriteRegistersCommand,
};
use crate::parser::{
    byte_at, checksum_matches, hash_from, hex_pair, hex_value, is_good_packet, is_term_byte,
    lemma_nibble_round_trip, name_stop, packet_checksum, packet_error, payload_end, step,
    token_end, Parsed, Parser,
};
use crate::stream::{advances, byte_total, counts, is_stuck, sink_sum, Stream};
use crate::target::Target;
use crate::wire::{ACK, ESCAPE, ESCAPE_MASK, NAK, PACKET_END, PACKET_START, RUN_LENGTH};
use vstd::prelude::*;

verus! {

/// Bytes that never stand for themselves in a payload.
pub open spec fn needs_escape(b: u8) -> bool {
    b == ESCAPE || b == PACKET_START || b == PACKET_END || b == RUN_LENGTH
}

/// How one payload byte goes on the wire: a byte that needs escaping becomes
/// `}` followed by the byte with bit 5 flipped.
pub open spec fn escape_byte(b: u8) -> Seq<u8> {
    if needs_escape(b) {
        seq![ESCAPE, b ^ ESCAPE_MASK]
    } else {
        seq![b]
    }
}

/// A payload as it goes on the wire, each byte escaped as needed.
pub open spec fn escape_all(bs: Seq<u8>) -> Seq<u8>
    decreases bs.len(),
{
    if bs.len() == 0 {
        Seq::empty()
    } else {
        escape_all(bs.drop_last()) + escape_byte(bs.last())
    }
}

/// A framed packet around the wire bytes `p`: `$`, `p`, `#`, then the sum of
/// the bytes of `p` other than `$` and `#`, modulo 256, as two hex digits.
pub open spec fn frame(p: Seq<u8>) -> Seq<u8> {
    seq![PACKET_START] + p + seq![PACKET_END] + hex_pair((byte_total(p) % 256) as u8)
}

/// Whether `w` is one whole framed packet with a correct checksum.
pub open spec fn is_framed(w: Seq<u8>) -> bool {
    w.len() >= 4 && w == frame(w.subrange(1, w.len() - 3))
}

/// Escaping works byte by byte, so it distributes over concatenation.
pub proof fn lemma_escape_all_concat(a: Seq<u8>, b: Seq<u8>)
    ensures
        escape_all(a + b) == escape_all(a) + escape_all(b),
    decreases b.len(),
{
    if b.len() > 0 {
        assert((a + b).drop_last() =~= a + b.drop_last());
        lemma_escape_all_concat(a, b.drop_last());
        assert(escape_all(a + b) =~= escape_all(a) + escape_all(b));
    } else {
        assert(a + b =~= a);
        assert(escape_all(a) + escape_all(b) =~= escape_all(a));
    }
}

/// Undoes escaping: `}` followed by a byte stands for that byte with bit 5 flipped.
pub open spec fn unescape(w: Seq<u8>) -> Seq<u8>
    decreases w.len(),
{
    if w.len() == 0 {
        Seq::empty()
    } else if w[0] == ESCAPE && w.len() >= 2 {
        seq![w[1] ^ ESCAPE_MASK] + unescape(w.skip(2))
    } else {
        seq![w[0]] + unescape(w.skip(1))
    }
}

proof fn lemma_unescape_after(q: Seq<u8>, t: Seq<u8>)
    ensures
        unescape(escape_all(q) + t) == q + unescape(t),
    decreases q.len(),
{
    if q.len() == 0 {
        assert(escape_all(q) + t =~= t);
        assert(q + unescape(t) =~= unescape(t));
    } else {
        let b = q[0];
        let rest = q.skip(1);
        assert(q =~= seq![b] + rest);
        lemma_escape_all_concat(seq![b], rest);
        assert(seq![b].drop_last() =~= Seq::<u8>::empty());
        assert(seq![b].last() == b);
        assert(escape_all(Seq::<u8>::empty()) == Seq::<u8>::empty());
        assert(Seq::<u8>::empty() + escape_byte(b) =~= escape_byte(b));
        assert(escape_all(seq![b]) =~= escape_byte(b));
        lemma_unescape_after(rest, t);
        let w = escape_all(q) + t;
        assert(w =~= escape_byte(b) + (escape_all(rest) + t));
        if needs_escape(b) {
            assert(b ^ ESCAPE_MASK ^ ESCAPE_MASK == b) by (bit_vector);
            assert(w.skip(2) =~= escape_all(rest) + t);
        } else {
            assert(w.skip(1) =~= escape_all(rest) + t);
        }
        assert(q + unescape(t) =~= seq![b] + (rest + unescape(t)));
    }
}

/// Escaping can be undone: the inverse rule gives back the payload.
pub proof fn lemma_escape_round_trip(p: Seq<u8>)
    ensures
        unescape(escape_all(p)) == p,
{
    lemma_unescape_after(p, Seq::empty());
    assert(escape_all(p) + Seq::<u8>::empty() =~= escape_all(p));
    assert(p + Seq::<u8>::empty() =~= p);
}

/// After escaping, `$`, `#` and `*` never appear, and every `}` is followed
/// by the byte it escapes.
pub proof fn lemma_escaped_is_clean(p: Seq<u8>)
    ensures
        forall|i: int|
            0 <= i < escape_all(p).len() ==> {
                let b = #[trigger] escape_all(p)[i];
                b != PACKET_START && b != PACKET_END && b != RUN_LENGTH && (b == ESCAPE ==> i + 1
                    < escape_all(p).len() && needs_escape(escape_all(p)[i + 1] ^ ESCAPE_MASK))
            },
    decreases p.len(),
{
    if p.len() > 0 {
        let init = p.drop_last();
        let b = p.last();
        lemma_escaped_is_clean(init);
        lemma_escaped_is_plain_or_same(b);
        let w = escape_all(p);
        let a = escape_all(init);
        assert(w == a + escape_byte(b));
        assert forall|i: int| 0 <= i < w.len() implies {
            let x = #[trigger] w[i];
            x != PACKET_START && x != PACKET_END && x != RUN_LENGTH && (x == ESCAPE ==> i + 1
                < w.len() && needs_escape(w[i + 1] ^ ESCAPE_MASK))
        } by {
            if i < a.len() {
                assert(w[i] == a[i]);
                if w[i] == ESCAPE {
                    assert(w[i + 1] == a[i + 1]);
                }
            } else {
                assert(w[i] == escape_byte(b)[i - a.len()]);
            }
        }
    }
}

proof fn lemma_escaped_is_plain_or_same(b: u8)
    ensures
        needs_escape(b) ==> (b ^ ESCAPE_MASK) != PACKET_START && (b ^ ESCAPE_MASK) != PACKET_END
            && (b ^ ESCAPE_MASK) != RUN_LENGTH && (b ^ ESCAPE_MASK) != ESCAPE && needs_escape(
            b ^ ESCAPE_MASK ^ ESCAPE_MASK,
        ),
{
    assert(b == 0x7d || b == 0x24 || b == 0x23 || b == 0x2a ==> {
        let x = b ^ 0x20u8;
        x != 0x7d && x != 0x24 && x != 0x23 && x != 0x2a && (x ^ 0x20u8) == b
    }) by (bit_vector);
}

/// A frame is recognised as one: whatever the payload, the packet that
/// [`ResponseWriter::start`] and [`ResponseWriter::end`] put around it is well framed.
pub proof fn lemma_frame_is_framed(p: Seq<u8>)
    ensures
        is_framed(frame(p)),
{
    let w = frame(p);
    assert(w.subrange(1, w.len() - 3) =~= p);
}

proof fn lemma_hash_at(s: Seq<u8>, i: int, h: int)
    requires
        0 <= i <= h < s.len(),
        s[h] == PACKET_END,
        forall|j: int| i <= j < h ==> s[j] != PACKET_END,
    ensures
        hash_from(s, i) == h,
    decreases h - i,
{
    if i < h {
        lemma_hash_at(s, i + 1, h);
    }
}

proof fn lemma_token_stops_by(s: Seq<u8>, i: int, h: int)
    requires
        0 <= i <= h < s.len(),
        is_term_byte(s[h]),
    ensures
        i <= token_end(s, i) <= h,
    decreases h - i,
{
    if i < h && !is_term_byte(s[i]) {
        lemma_token_stops_by(s, i + 1, h);
    }
}

/// What this library sends, its own parser accepts: a frame around a payload
/// without `#` (no escaped payload has one) is a good packet, and the checksum
/// the parser computes for it is the sum of its payload bytes modulo 256.
#[verifier::rlimit(40)]
pub proof fn lemma_frame_accepted(p: Seq<u8>)
    requires
        forall|i: int| 0 <= i < p.len() ==> p[i] != PACKET_END,
    ensures
        is_good_packet(frame(p), 0),
        packet_checksum(frame(p)) == byte_total(p) % 256,
{
    let s = frame(p);
    let h = p.len() as int + 1;
    let x = (byte_total(p) % 256) as u8;
    assert(s[0] == PACKET_START);
    assert(s[h] == PACKET_END);
    assert forall|j: int| 0 <= j < h implies s[j] != PACKET_END by {
        if j > 0 {
            assert(s[j] == p[j - 1]);
        }
    }
    lemma_hash_at(s, 0, h);
    lemma_hash_at(s, 1, h);
    let q = name_stop(s, 1);
    if byte_at(s, 1) == 0x76 || byte_at(s, 1) == 0x71 {
        lemma_token_stops_by(s, 1, h);
    }
    assert(1 <= q <= h);
    if byte_at(s, q) != PACKET_END {
        assert(q < h);
        lemma_hash_at(s, step(s, q), h);
    }
    assert(payload_end(s, q) == h);
    assert(s.take(h) =~= seq![PACKET_START] + p);
    lemma_close_frame(p);
    crate::stream::lemma_byte_total_concat(seq![PACKET_START], p);
    assert(seq![PACKET_START].drop_last() =~= Seq::<u8>::empty());
    assert(!counts(seq![PACKET_START].last()));
    assert(byte_total(Seq::<u8>::empty()) == 0);
    assert(byte_total(seq![PACKET_START]) == 0);
    lemma_nibble_round_trip(x / 16);
    lemma_nibble_round_trip(x);
    assert(s[h + 1] == hex_pair(x)[0]);
    assert(s[h + 2] == hex_pair(x)[1]);
    assert((x / 16) % 16 == x / 16);
    assert(x == (x / 16) * 16 + x % 16);
    assert(checksum_matches(s, h + 1));
    assert(packet_error(s, 0) is None);
}

/// Closing a frame: the checksum that the sink holds after `$` and the
/// payload is the payload's checksum.
pub(crate) proof fn lemma_close_frame(p: Seq<u8>)
    ensures
        (seq![PACKET_START] + p).push(PACKET_END) + hex_pair(
            (sink_sum(seq![PACKET_START] + p) % 256) as u8,
        ) == frame(p),
        is_framed(frame(p)),
        (sink_sum(seq![PACKET_START] + p) % 256) as u8 == (byte_total(p) % 256) as u8,
        sink_sum((seq![PACKET_START] + p).push(PACKET_END)) == sink_sum(seq![PACKET_START] + p),
{
    let s = seq![PACKET_START];
    crate::stream::lemma_byte_total_concat(s, p);
    assert(s.drop_last() =~= Seq::<u8>::empty());
    assert(!counts(s.last()));
    assert(byte_total(s.drop_last()) == 0);
    assert(byte_total(s) == 0);
    crate::stream::lemma_sum_push(s + p, PACKET_END);
    vstd::arithmetic::div_mod::lemma_mod_mod(byte_total(p) as int, 256, 0x1000000);
    lemma_frame_is_framed(p);
}

/// What every command does: write its reply to a sink, consulting the target.
/// Returns the size of the reply.
pub trait Command {
    fn response<S: Stream, T: Target>(&mut self, stream: &mut S, ctx: &mut T) -> (r: Result<
        usize,
        Errors,
    >)
        requires
            old(stream).inv(),
            old(ctx).inv(),
        ensures
            final(stream).inv(),
            final(stream).capacity() == old(stream).capacity(),
            final(ctx).inv(),
    ;
}

/// Writes the framing of a reply around a payload. The only state is the
/// argument payload of the command it serves.
#[derive(Debug, PartialEq)]
pub struct ResponseWriter<'a> {
    pub fields: &'a [u8],
}

impl<'a> ResponseWriter<'a> {
    pub fn new(fields: &'a [u8]) -> (r: Self)
        ensures
            r.fields == fields,
    {
        Self { fields }
    }

    /// Opens a packet with `$`.
    pub fn start<S: Stream>(&mut self, stream: &mut S) -> (r: Result<usize, Errors>)
        requires
            old(stream).inv(),
        ensures
            *final(self) == *old(self),
            final(stream).inv(),
            final(stream).capacity() == old(stream).capacity(),
            r matches Ok(n) ==> n == 1 && final(stream).written() == old(stream).written().push(
                PACKET_START,
            ),
            advances(*old(stream), *final(stream), 1, r is Ok),
            is_stuck(*old(stream)) ==> r is Err,
            r matches Err(e) ==> e == Errors::MemoryFilledInterupt,
    {
        self.write_force(stream, PACKET_START)
    }

    /// Closes a packet: `#`, then the sink's checksum modulo 256 as two hex digits.
    pub fn end<S: Stream>(&mut self, stream: &mut S) -> (r: Result<usize, Errors>)
        requires
            old(stream).inv(),
        ensures
            *final(self) == *old(self),
            final(stream).inv(),
            final(stream).capacity() == old(stream).capacity(),
            r matches Ok(n) ==> n == 3 && final(stream).written() == old(stream).written().push(
                PACKET_END,
            ) + hex_pair((sink_sum(old(stream).written()) % 256) as u8),
            advances(*old(stream), *final(stream), 3, r is Ok),
            is_stuck(*old(stream)) ==> r is Err,
            r matches Err(e) ==> e == Errors::MemoryFilledInterupt,
    {
        let ghost before = stream.written();
        let mut size = self.write_force(stream, PACKET_END)?;
        proof {
            crate::stream::lemma_sum_push(before, PACKET_END);
        }
        let chksm = (stream.chksm() % 256) as u8;
        size += self.write_hex(stream, chksm)?;
        Ok(size)
    }

    /// Writes a byte as two hex digits, without escaping.
    pub fn write_hex<S: Stream>(&mut self, stream: &mut S, byte: u8) -> (r: Result<usize, Errors>)
        requires
            old(stream).inv(),
        ensures
            *final(self) == *old(self),
            final(stream).inv(),
            final(stream).capacity() == old(stream).capacity(),
            r matches Ok(n) ==> n == 2 && final(stream).written() == old(stream).written()
                + hex_pair(byte),
            advances(*old(stream), *final(stream), 2, r is Ok),
            is_stuck(*old(stream)) ==> r is Err,
            r matches Err(e) ==> e == Errors::MemoryFilledInterupt,
    {
        let byte = Parser::to_hex_tuple(byte);
        let mut size = self.write_force(stream, byte.0)?;
        size += self.write_force(stream, byte.1)?;
        assert(final(stream).written() =~= old(stream).written() + seq![byte.0, byte.1]);
        Ok(size)
    }

    /// Writes `OK`.
    pub fn ok<S: Stream>(&mut self, stream: &mut S) -> (r: Result<usize, Errors>)
        requires
            old(stream).inv(),
        ensures
            *final(self) == *old(self),
            final(stream).inv(),
            final(stream).capacity() == old(stream).capacity(),
            r matches Ok(n) ==> n == 2 && final(stream).written() == old(stream).written()
                + ok_text(),
            advances(*old(stream), *final(stream), 2, r is Ok),
            is_stuck(*old(stream)) ==> r is Err,
            r matches Err(e) ==> e == Errors::MemoryFilledInterupt,
    {
        let text: &[u8] = &[0x4f, 0x4b];
        proof {
            assert(text@ == ok_text());
            reveal_with_fuel(escape_all, 3);
            assert(escape_all(ok_text()) =~= ok_text());
        }
        self.write_all(stream, text)
    }

    /// Writes an error reply. Every kind is reported as code `00`.
    pub fn error<S: Stream>(&mut self, stream: &mut S, _error: Errors) -> (r: Result<usize, Errors>)
        requires
            old(stream).inv(),
        ensures
            *final(self) == *old(self),
            final(stream).inv(),
            final(stream).capacity() == old(stream).capacity(),
            r matches Ok(n) ==> n == 3 && final(stream).written() == old(stream).written()
                + error_text(),
            advances(*old(stream), *final(stream), 3, r is Ok),
            is_stuck(*old(stream)) ==> r is Err,
            r matches Err(e) ==> e == Errors::MemoryFilledInterupt,
    {
        let text: &[u8] = &[0x45, 0x30, 0x30];
        proof {
            assert(text@ == error_text());
            reveal_with_fuel(escape_all, 4);
            assert(escape_all(error_text()) =~= error_text());
        }
        self.write_all(stream, text)
    }

    /// Flips bit 5 of a byte, which is how an escaped byte is carried.
    pub fn escape(byte: u8) -> (r: u8)
        ensures
            r == byte ^ ESCAPE_MASK,
    {
        byte ^ ESCAPE_MASK
    }

    /// Writes `}` and then the byte with bit 5 flipped, itself escaped if needed.
    pub fn write_escape<S: Stream>(&mut self, stream: &mut S, byte: u8) -> (r: Result<
        usize,
        Errors,
    >)
        requires
            old(stream).inv(),
        ensures
            *final(self) == *old(self),
            final(stream).inv(),
            final(stream).capacity() == old(stream).capacity(),
            r matches Ok(n) ==> final(stream).written() == old(stream).written().push(ESCAPE)
                + escape_byte(byte ^ ESCAPE_MASK) && n == 1 + escape_byte(byte ^ ESCAPE_MASK).len(),
            advances(*old(stream), *final(stream), 1 + escape_byte(byte ^ ESCAPE_MASK).len(), r is Ok),
            is_stuck(*old(stream)) ==> r is Err,
            r matches Err(e) ==> e == Errors::MemoryFilledInterupt,
        decreases
            if needs_escape(byte ^ ESCAPE_MASK) {
                3int
            } else {
                1int
            },
    {
        let mut size = self.write_force(stream, ESCAPE)?;
        size += self.write(stream, Self::escape(byte))?;
        assert(final(stream).written() =~= old(stream).written().push(ESCAPE) + escape_byte(
            byte ^ ESCAPE_MASK,
        ));
        Ok(size)
    }

    /// Writes a payload byte by byte, escaping as needed.
    pub fn write_all<S: Stream>(&mut self, stream: &mut S, bytes: &[u8]) -> (r: Result<
        usize,
        Errors,
    >)
        requires
            old(stream).inv(),
            bytes@.len() <= isize::MAX,
        ensures
            *final(self) == *old(self),
            final(stream).inv(),
            final(stream).capacity() == old(stream).capacity(),
            r matches Ok(n) ==> final(stream).written() == old(stream).written() + escape_all(
                bytes@,
            ) && n == escape_all(bytes@).len(),
            advances(*old(stream), *final(stream), escape_all(bytes@).len(), r is Ok),
            is_stuck(*old(stream)) && bytes@.len() > 0 ==> r is Err,
            r matches Err(e) ==> e == Errors::MemoryFilledInterupt,
    {
        let mut size: usize = 0;
        let mut i: usize = 0;
        while i < bytes.len()
            invariant
                i <= bytes.len() <= isize::MAX,
                stream.inv(),
                stream.capacity() == old(stream).capacity(),
                stream.written() == old(stream).written() + escape_all(bytes@.take(i as int)),
                size == escape_all(bytes@.take(i as int)).len(),
                size <= 2 * i,
                *self == *old(self),
                old(stream).cursor() + size <= old(stream).capacity() ==> stream.cursor() == old(stream).cursor() + size,
                i == 0 ==> *stream == *old(stream),
                i > 0 ==> !is_stuck(*old(stream)),
            decreases bytes.len() - i,
        {
            proof {
                assert(bytes@.take(i + 1).drop_last() =~= bytes@.take(i as int));
                lemma_escape_all_concat(bytes@.take(i + 1), bytes@.skip(i + 1));
                assert(bytes@.take(i + 1) + bytes@.skip(i + 1) =~= bytes@);
            }
            size += self.write(stream, bytes[i])?;
            assert(stream.written() =~= old(stream).written() + escape_all(bytes@.take(i + 1)));
            i = i + 1;
        }
        assert(bytes@.take(i as int) =~= bytes@);
        Ok(size)
    }

    /// Writes a byte as it is, even one that would normally be escaped.
    pub fn write_force<S: Stream>(&mut self, stream: &mut S, byte: u8) -> (r: Result<
        usize,
        Errors,
    >)
        requires
            old(stream).inv(),
        ensures
            *final(self) == *old(self),
            final(stream).inv(),
            final(stream).capacity() == old(stream).capacity(),
            r matches Ok(n) ==> n == 1 && final(stream).written() == old(stream).written().push(
                byte,
            ),
            advances(*old(stream), *final(stream), 1, r is Ok),
            is_stuck(*old(stream)) ==> r is Err,
            r matches Err(e) ==> e == Errors::MemoryFilledInterupt,
    {
        stream.write(byte)
    }

    /// Writes a payload byte, escaping it if needed.
    pub fn write<S: Stream>(&mut self, stream: &mut S, byte: u8) -> (r: Result<usize, Errors>)
        requires
            old(stream).inv(),
        ensures
            *final(self) == *old(self),
            final(stream).inv(),
            final(stream).capacity() == old(stream).capacity(),
            r matches Ok(n) ==> final(stream).written() == old(stream).written() + escape_byte(byte)
                && n == escape_byte(byte).len(),
            advances(*old(stream), *final(stream), escape_byte(byte).len(), r is Ok),
            is_stuck(*old(stream)) ==> r is Err,
            r matches Err(e) ==> e == Errors::MemoryFilledInterupt,
        decreases
            if needs_escape(byte) {
                2int
            } else {
                0int
            },
    {
        if byte == ESCAPE || byte == PACKET_START || byte == PACKET_END || byte == RUN_LENGTH {
            proof {
                lemma_escaped_is_plain_or_same(byte);
            }
            let r = self.write_escape(stream, byte);
            proof {
                if r is Ok {
                    assert(escape_byte(byte ^ ESCAPE_MASK) == seq![byte ^ ESCAPE_MASK]);
                    assert(final(stream).written() =~= old(stream).written() + escape_byte(byte));
                }
            }
            r
        } else {
            let r = self.write_force(stream, byte);
            assert(r is Ok ==> final(stream).written() =~= old(stream).written() + escape_byte(
                byte,
            ));
            r
        }
    }
}

/// `OK`, the reply to a write that succeeded.
pub open spec fn ok_text() -> Seq<u8> {
    seq![0x4fu8, 0x4bu8]
}

/// `E00`, the reply to a command that failed.
pub open spec fn error_text() -> Seq<u8> {
    seq![0x45u8, 0x30u8, 0x30u8]
}

} // verus!

verus! {

/// Asks the debugger to send its last packet again: `-`.
#[derive(Debug, PartialEq)]
pub struct Retransmit<'a> {
    pub state: ResponseWriter<'a>,
    pub error: Errors,
}

impl<'a> Retransmit<'a> {
    /// `error` records why the packet was refused.
    pub fn new(error: Errors) -> (r: Self)
        ensures
            r.error == error,
            r.state.fields@.len() == 0,
    {
        Self { state: ResponseWriter::new(&[]), error }
    }
}

impl<'a> Command for Retransmit<'a> {
    fn response<S: Stream, T: Target>(&mut self, stream: &mut S, ctx: &mut T) -> (r: Result<
        usize,
        Errors,
    >)
        ensures
            *final(ctx) == *old(ctx),
            old(stream).capacity() >= 1 ==> r is Ok && final(stream).cursor() == 1,
            r matches Ok(n) ==> n == 1 && final(stream).written() == seq![NAK],
            r matches Err(e) ==> e == Errors::MemoryFilledInterupt,
    {
        stream.reset();
        let r = self.state.write(stream, NAK);
        assert(r is Ok ==> final(stream).written() =~= seq![NAK]);
        r
    }
}

/// Acknowledges a packet: `+`.
#[derive(Debug, PartialEq)]
pub struct Acknowledge<'a> {
    pub state: ResponseWriter<'a>,
}

impl<'a> Acknowledge<'a> {
    pub fn new() -> (r: Self)
        ensures
            r.state.fields@.len() == 0,
    {
        Self { state: ResponseWriter::new(&[]) }
    }
}

impl<'a> Default for Acknowledge<'a> {
    fn default() -> (r: Self)
        ensures
            r.state.fields@.len() == 0,
    {
        Self::new()
    }
}

impl<'a> Command for Acknowledge<'a> {
    fn response<S: Stream, T: Target>(&mut self, stream: &mut S, ctx: &mut T) -> (r: Result<
        usize,
        Errors,
    >)
        ensures
            *final(ctx) == *old(ctx),
            old(stream).capacity() >= 1 ==> r is Ok && final(stream).cursor() == 1,
            r matches Ok(n) ==> n == 1 && final(stream).written() == seq![ACK],
            r matches Err(e) ==> e == Errors::MemoryFilledInterupt,
    {
        stream.reset();
        let r = self.state.write(stream, ACK);
        assert(r is Ok ==> final(stream).written() =~= seq![ACK]);
        r
    }
}

/// The reply to a command that this stub does not implement: the empty packet `$#00`.
#[derive(Debug, PartialEq)]
pub struct NotImplemented<'a> {
    pub state: ResponseWriter<'a>,
}

impl<'a> NotImplemented<'a> {
    pub fn new() -> (r: Self)
        ensures
            r.state.fields@.len() == 0,
    {
        Self { state: ResponseWriter::new(&[]) }
    }
}

/// `$#00`: an empty frame.
pub open spec fn empty_frame() -> Seq<u8> {
    frame(Seq::empty())
}

impl<'a> Default for NotImplemented<'a> {
    fn default() -> (r: Self)
        ensures
            r.state.fields@.len() == 0,
    {
        Self::new()
    }
}

impl<'a> Command for NotImplemented<'a> {
    fn response<S: Stream, T: Target>(&mut self, stream: &mut S, ctx: &mut T) -> (r: Result<
        usize,
        Errors,
    >)
        ensures
            *final(ctx) == *old(ctx),
            old(stream).capacity() >= 4 ==> r is Ok && final(stream).cursor() == 4,
            r matches Ok(n) ==> n == 4 && final(stream).written() == empty_frame(),
            r matches Err(e) ==> e == Errors::MemoryFilledInterupt,
    {
        stream.reset();
        let mut size = self.state.start(stream)?;
        proof {
            lemma_close_frame(Seq::empty());
            assert(seq![PACKET_START] + Seq::<u8>::empty() =~= seq![PACKET_START]);
        }
        size += self.state.end(stream)?;
        Ok(size)
    }
}

} // verus!

verus! {

/// Every command of this stub, as parsed from one packet.
#[derive(Debug, PartialEq)]
pub enum Commands<'a> {
    NoCommand,
    Unsupported,
    /// The debugger sent `-`: it wants the last reply again.
    RetransmitLast,
    /// The debugger sent `+`: it received the last reply.
    AcknowledgeLast,
    NotImplemented(NotImplemented<'a>),
    Retransmit(Retransmit<'a>),
    Acknowledge(Acknowledge<'a>),
    Reason(ReasonCommand<'a>),
    ReadRegister(ReadRegistersCommand<'a>),
    WriteRegister(WriteRegistersCommand<'a>),
    ReadMemory(ReadMemoryCommand<'a>),
    WriteMemory(WriteMemoryCommand<'a>),
}

/// Whether a parsed response acknowledges the packet.
pub open spec fn acknowledges(response: Option<Commands>) -> bool {
    response matches Some(c) && c matches Commands::Acknowledge(a) && a.state.fields@.len() == 0
}

/// Whether a parsed response asks for the packet again, for reason `e`.
pub open spec fn requests_retransmit(response: Option<Commands>, e: Errors) -> bool {
    response matches Some(c) && c matches Commands::Retransmit(t) && t.error == e
        && t.state.fields@.len() == 0
}

/// A reply of `len` bytes into a sink that was reset: when it has room for
/// all of them, the reply succeeds, returns `len` and leaves the cursor there.
pub open spec fn sized_reply<S: Stream>(before: S, after: S, r: Result<usize, Errors>, len: nat) -> bool {
    before.capacity() >= len ==> r == Ok::<usize, Errors>(len as usize) && after.cursor() == len
}

/// Commands that reply nothing at all.
pub open spec fn is_silent(c: Commands) -> bool {
    c is NoCommand || c is Unsupported || c is RetransmitLast || c is AcknowledgeLast
}

impl<'a> Command for Commands<'a> {
    /// Writes the reply of the command. A silent command leaves the sink as it
    /// is; `+` and `-` are written bare; every other reply is one framed packet.
    fn response<S: Stream, T: Target>(&mut self, stream: &mut S, ctx: &mut T) -> (r: Result<
        usize,
        Errors,
    >)
        ensures
            is_silent(*old(self)) ==> r == Ok::<usize, Errors>(0) && *final(stream) == *old(stream) && *final(ctx) == *old(ctx),
            *old(self) is Acknowledge ==> *final(ctx) == *old(ctx) && (old(stream).capacity() >= 1
                ==> r is Ok && final(stream).cursor() == 1) && (r is Ok ==> r == Ok::<
                usize,
                Errors,
            >(1) && final(stream).written() == seq![ACK]),
            *old(self) is Retransmit ==> *final(ctx) == *old(ctx) && (old(stream).capacity() >= 1
                ==> r is Ok && final(stream).cursor() == 1) && (r is Ok ==> r == Ok::<
                usize,
                Errors,
            >(1) && final(stream).written() == seq![NAK]),
            *old(self) is NotImplemented ==> *final(ctx) == *old(ctx) && (old(stream).capacity()
                >= 4 ==> r is Ok && final(stream).cursor() == 4) && (r is Ok ==> r == Ok::<
                usize,
                Errors,
            >(4) && final(stream).written() == empty_frame()),
            *old(self) is Reason ==> *final(ctx) == *old(ctx) && sized_reply(
                *old(stream),
                *final(stream),
                r,
                escape_all(old(ctx).reason_text()).len() + 4,
            ) && (r is Ok
                ==> final(stream).written() == frame(escape_all(old(ctx).reason_text()))),
            *old(self) is ReadRegister ==> *final(ctx) == *old(ctx) && sized_reply(
                *old(stream),
                *final(stream),
                r,
                old(ctx).registers_text().len() + 4,
            ) && (r is Ok ==> final(stream).written() == frame(old(ctx).registers_text())),
            *old(self) matches Commands::WriteRegister(c) ==> (old(stream).capacity() >= 7 ==> r is Ok)
                && sized_reply(
                *old(stream),
                *final(stream),
                r,
                status_text(old(ctx).registers_outcome(c.state.fields@) is Ok).len() + 4,
            ) && (r is Ok ==> final(stream).written() == frame(
                status_text(old(ctx).registers_outcome(c.state.fields@) is Ok),
            )) && (r is Ok && old(ctx).registers_outcome(c.state.fields@) is Ok ==> old(ctx).registers_written(c.state.fields@, final(ctx))),
            *old(self) matches Commands::ReadMemory(c) ==> *final(ctx) == *old(ctx) && (read_args(
                c.state.fields@,
            ) is Err && old(stream).capacity() >= 1 ==> r == Err::<usize, Errors>(
                read_args(c.state.fields@)->Err_0,
            )) && (read_args(c.state.fields@) is Ok ==> sized_reply(
                *old(stream),
                *final(stream),
                r,
                old(ctx).memory_text(
                    read_args(c.state.fields@)->Ok_0.0,
                    read_args(c.state.fields@)->Ok_0.1,
                ).len() + 4,
            )) && (r is Ok ==> read_args(c.state.fields@) is Ok && final(stream).written() == frame(
                old(ctx).memory_text(
                    read_args(c.state.fields@)->Ok_0.0,
                    read_args(c.state.fields@)->Ok_0.1,
                ),
            )),
            *old(self) matches Commands::WriteMemory(c) ==> (write_args(c.state.fields@) is Err
                && old(stream).capacity() >= 1 ==> r == Err::<usize, Errors>(
                write_args(c.state.fields@)->Err_0,
            )) && (write_args(c.state.fields@) is Err ==> *final(ctx) == *old(ctx)) && (write_args(
                c.state.fields@,
            ) is Ok && old(ctx).memory_outcome(
                write_args(c.state.fields@)->Ok_0.0,
                write_args(c.state.fields@)->Ok_0.1,
            ) is Err && old(stream).capacity() >= 1 ==> r == Err::<usize, Errors>(
                old(ctx).memory_outcome(
                    write_args(c.state.fields@)->Ok_0.0,
                    write_args(c.state.fields@)->Ok_0.1,
                )->Err_0,
            )) && (write_args(c.state.fields@) is Ok && old(ctx).memory_outcome(
                write_args(c.state.fields@)->Ok_0.0,
                write_args(c.state.fields@)->Ok_0.1,
            ) is Ok ==> sized_reply(*old(stream), *final(stream), r, 6)) && (r is Ok ==> write_args(
                c.state.fields@,
            ) is Ok && final(stream).written() == frame(ok_text()) && old(ctx).memory_written(
                write_args(c.state.fields@)->Ok_0.0,
                write_args(c.state.fields@)->Ok_0.1,
                final(ctx),
            )),
            *old(self) is Reason || *old(self) is ReadRegister || *old(self) is WriteRegister
                || *old(self) is ReadMemory || *old(self) is WriteMemory ==> (r matches Ok(n) ==> n
                == final(stream).cursor()),
            r is Ok && !is_silent(*old(self)) && !(*old(self) is Acknowledge) && !(
            *old(self) is Retransmit) ==> is_framed(final(stream).written()),
    {
        match self {
            Commands::NoCommand | Commands::Unsupported | Commands::RetransmitLast
            | Commands::AcknowledgeLast => Ok(0),
            Commands::NotImplemented(c) => {
                let r = c.response(stream, ctx);
                proof {
                    lemma_frame_is_framed(Seq::empty());
                }
                r
            },
            Commands::Retransmit(c) => c.response(stream, ctx),
            Commands::Acknowledge(c) => c.response(stream, ctx),
            Commands::Reason(c) => {
                let ghost p = escape_all(ctx.reason_text());
                let r = c.response(stream, ctx);
                proof {
                    lemma_frame_is_framed(p);
                }
                r
            },
            Commands::ReadRegister(c) => {
                let ghost p = ctx.registers_text();
                let r = c.response(stream, ctx);
                proof {
                    lemma_frame_is_framed(p);
                }
                r
            },
            Commands::WriteRegister(c) => {
                let r = c.response(stream, ctx);
                proof {
                    lemma_frame_is_framed(ok_text());
                    lemma_frame_is_framed(error_text());
                }
                r
            },
            Commands::ReadMemory(c) => {
                let ghost f = c.state.fields@;
                let ghost p = if read_args(f) is Ok {
                    ctx.memory_text(read_args(f)->Ok_0.0, read_args(f)->Ok_0.1)
                } else {
                    Seq::empty()
                };
                let r = c.response(stream, ctx);
                proof {
                    lemma_frame_is_framed(p);
                }
                r
            },
            Commands::WriteMemory(c) => {
                let r = c.response(stream, ctx);
                proof {
                    lemma_frame_is_framed(ok_text());
                }
                r
            },
        }
    }
}

/// The command that the required set maps a packet name to: `?`, `g`, `G`,
/// `m` and `M`; any other name is not implemented. Commands with arguments
/// carry the argument payload, or an empty one.
pub open spec fn dispatched(name: Seq<u8>, args: Seq<u8>, c: Commands) -> bool {
    if name == seq![0x3fu8] {
        c matches Commands::Reason(x) && x.state.fields@.len() == 0
    } else if name == seq![0x67u8] {
        c matches Commands::ReadRegister(x) && x.state.fields@.len() == 0
    } else if name == seq![0x47u8] {
        c matches Commands::WriteRegister(x) && x.state.fields@ == args
    } else if name == seq![0x6du8] {
        c matches Commands::ReadMemory(x) && x.state.fields@ == args
    } else if name == seq![0x4du8] {
        c matches Commands::WriteMemory(x) && x.state.fields@ == args
    } else {
        c matches Commands::NotImplemented(x) && x.state.fields@.len() == 0
    }
}

/// Whether `command` is the command of the required set for `name` and `args`.
pub open spec fn builds_required(name: Seq<u8>, args: Seq<u8>, command: Option<Commands>) -> bool {
    command matches Some(c) && dispatched(name, args, c)
}

/// The argument payload of a packet, empty when it had none.
pub open spec fn args_or_empty(args: Option<&[u8]>) -> Seq<u8> {
    match args {
        Some(a) => a@,
        None => Seq::empty(),
    }
}

/// Builds the command for a parsed packet name and its arguments. A target
/// platform implements this to choose the commands it supports; by default
/// it supports the required set.
pub trait SupportedCommands<'a> {
    /// The names for which this registry builds commands of its own; every
    /// other name gets the command of the required set. By default, none.
    open spec fn takes_over(&self, name: Seq<u8>) -> bool {
        false
    }

    /// Always acknowledges the packet, which was well framed.
    fn commands(&self, name: &'a [u8], args: Option<&'a [u8]>) -> (r: Parsed<'a>)
        ensures
            acknowledges(r.response),
            !self.takes_over(name@) ==> builds_required(name@, args_or_empty(args), r.command),
    {
        let empty: &'a [u8] = &[];
        assert(empty@ =~= Seq::<u8>::empty());
        let payload: &'a [u8] = match args {
            Some(a) => a,
            None => empty,
        };
        assert(payload@ == args_or_empty(args));
        let c = if name.len() != 1 {
            Commands::NotImplemented(NotImplemented::new())
        } else if name[0] == 0x3f {
            Commands::Reason(ReasonCommand::new())
        } else if name[0] == 0x67 {
            Commands::ReadRegister(ReadRegistersCommand::new())
        } else if name[0] == 0x47 {
            Commands::WriteRegister(WriteRegistersCommand::new(payload))
        } else if name[0] == 0x6d {
            Commands::ReadMemory(ReadMemoryCommand::new(payload))
        } else if name[0] == 0x4d {
            Commands::WriteMemory(WriteMemoryCommand::new(payload))
        } else {
            Commands::NotImplemented(NotImplemented::new())
        };
        assert(name@.len() == 1 ==> name@ == seq![name@[0]]);
        Parsed::ack(Some(c))
    }
}

} // verus!
