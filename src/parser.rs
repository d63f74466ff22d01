use crate::command::{
    acknowledges, builds_required, requests_retransmit, Acknowledge, Commands, Retransmit, SupportedCommands,
};
use crate::error::Errors;
use crate::stream::{advances, byte_total, sink_sum, Stream};
use crate::wire::{ACK, NAK, PACKET_END, PACKET_START};
use vstd::prelude::*;

verus! {

/// Value of an ASCII hex digit, accepted in either case.
pub open spec fn hex_value(b: u8) -> Option<u8> {
    if 0x30 <= b <= 0x39 {
        Some((b - 0x30) as u8)
    } else if 0x41 <= b <= 0x46 {
        Some((b - 0x41 + 10) as u8)
    } else if 0x61 <= b <= 0x66 {
        Some((b - 0x61 + 10) as u8)
    } else {
        None
    }
}

/// The lowercase ASCII hex digit of a nibble `n < 16`.
pub open spec fn nibble_char(n: u8) -> u8 {
    if n <= 9 {
        (n + 0x30) as u8
    } else {
        (n - 10 + 0x61) as u8
    }
}

/// A byte as two hex digits, high nibble first.
pub open spec fn hex_pair(b: u8) -> Seq<u8> {
    seq![nibble_char(b / 16), nibble_char(b % 16)]
}

/// Bytes as hex text, two digits per byte, in the order given.
pub open spec fn hex_text(bs: Seq<u8>) -> Seq<u8>
    decreases bs.len(),
{
    if bs.len() == 0 {
        Seq::empty()
    } else {
        hex_text(bs.drop_last()) + hex_pair(bs.last())
    }
}

/// Index of the first NUL of `s` at or after `i`, or the length of `s`.
pub open spec fn first_nul_from(s: Seq<u8>, i: int) -> int
    decreases s.len() - i,
{
    if i >= s.len() {
        s.len() as int
    } else if s[i] == 0 {
        i
    } else {
        first_nul_from(s, i + 1)
    }
}

/// `s` up to its first NUL, which pads short fields in fixed buffers.
pub open spec fn until_nul(s: Seq<u8>) -> Seq<u8> {
    s.take(first_nul_from(s, 0))
}

pub open spec fn all_hex(s: Seq<u8>) -> bool {
    forall|i: int| 0 <= i < s.len() ==> (#[trigger] hex_value(s[i])) is Some
}

/// The number that hex digits denote, most significant digit first.
pub open spec fn hex_number(s: Seq<u8>) -> nat
    decreases s.len(),
{
    if s.len() == 0 {
        0
    } else {
        hex_number(s.drop_last()) * 16 + match hex_value(s.last()) {
            Some(v) => v as nat,
            None => 0,
        }
    }
}

/// What a hex field of any length reads as: the digits before the first NUL,
/// as long as all are hex digits and their value fits a machine word.
pub open spec fn parse_hexu(s: Seq<u8>) -> Option<usize> {
    let d = until_nul(s);
    if all_hex(d) && hex_number(d) <= usize::MAX {
        Some(hex_number(d) as usize)
    } else {
        None
    }
}

/// The number that bytes denote, most significant byte first.
pub open spec fn be_value(bs: Seq<u8>) -> nat
    decreases bs.len(),
{
    if bs.len() == 0 {
        0
    } else {
        be_value(bs.drop_last()) * 256 + bs.last() as nat
    }
}

/// The `n` low bytes of `u`, most significant first.
pub open spec fn be_bytes(u: nat, n: nat) -> Seq<u8>
    decreases n,
{
    if n == 0 {
        Seq::empty()
    } else {
        be_bytes(u / 256, (n - 1) as nat).push((u % 256) as u8)
    }
}

proof fn lemma_hex_number_prefix(s: Seq<u8>, k: int)
    requires
        0 <= k <= s.len(),
    ensures
        hex_number(s.take(k)) <= hex_number(s),
    decreases s.len(),
{
    if k < s.len() {
        assert(s.drop_last().take(k) =~= s.take(k));
        lemma_hex_number_prefix(s.drop_last(), k);
    } else {
        assert(s.take(k) =~= s);
    }
}

/// Sixteen to the power `n`.
pub open spec fn pow16(n: nat) -> nat
    decreases n,
{
    if n == 0 {
        1
    } else {
        16 * pow16((n - 1) as nat)
    }
}

pub(crate) proof fn lemma_hex_number_bound(s: Seq<u8>)
    requires
        all_hex(s),
    ensures
        hex_number(s) < pow16(s.len()),
    decreases s.len(),
{
    if s.len() > 0 {
        let init = s.drop_last();
        assert forall|i: int| 0 <= i < init.len() implies (#[trigger] hex_value(init[i])) is Some by {
            assert(init[i] == s[i]);
        }
        assert(hex_value(s[s.len() - 1]) is Some);
        lemma_hex_number_bound(init);
        let p = pow16(init.len());
        let v = hex_value(s.last())->0;
        assert(hex_number(s) == hex_number(init) * 16 + v);
        assert(hex_number(init) * 16 + v < p * 16) by (nonlinear_arith)
            requires
                hex_number(init) < p,
                v < 16,
        ;
    }
}

proof fn lemma_hex_number_push(s: Seq<u8>, b: u8)
    ensures
        hex_number(s.push(b)) == hex_number(s) * 16 + match hex_value(b) {
            Some(v) => v as nat,
            None => 0,
        },
{
    assert(s.push(b).drop_last() =~= s);
}

/// A nibble written as a hex digit reads back as the same nibble.
pub proof fn lemma_nibble_round_trip(b: u8)
    ensures
        hex_value(nibble_char(b % 16)) == Some((b % 16) as u8),
{
}

proof fn lemma_hex_text_digits(bs: Seq<u8>)
    ensures
        hex_text(bs).len() == 2 * bs.len(),
        forall|i: int| 0 <= i < hex_text(bs).len() ==> #[trigger] hex_value(hex_text(bs)[i]) is Some
            && hex_text(bs)[i] != 0,
        hex_number(hex_text(bs)) == be_value(bs),
    decreases bs.len(),
{
    if bs.len() > 0 {
        let init = bs.drop_last();
        let b = bs.last();
        lemma_hex_text_digits(init);
        lemma_nibble_round_trip(b / 16);
        lemma_nibble_round_trip(b);
        let t = hex_text(init);
        let p = hex_pair(b);
        assert(hex_text(bs) == t + p);
        assert((t + p).drop_last() =~= t.push(p[0]));
        assert(t.push(p[0]).drop_last() =~= t);
        assert(hex_number(t + p) == hex_number(t) * 256 + b) by (nonlinear_arith)
            requires
                hex_number(t + p) == hex_number(t.push(p[0])) * 16 + (b % 16),
                hex_number(t.push(p[0])) == hex_number(t) * 16 + (b / 16),
                b == (b / 16) * 16 + (b % 16),
        ;
        assert forall|i: int| 0 <= i < hex_text(bs).len() implies #[trigger] hex_value(
            hex_text(bs)[i],
        ) is Some && hex_text(bs)[i] != 0 by {
            if i >= t.len() {
                assert(hex_text(bs)[i] == p[i - t.len()]);
            } else {
                assert(hex_text(bs)[i] == t[i]);
            }
        }
    }
}

pub(crate) proof fn lemma_hex_text_len(bs: Seq<u8>)
    ensures
        hex_text(bs).len() == 2 * bs.len(),
{
    lemma_hex_text_digits(bs);
}

pub(crate) proof fn lemma_no_nul_from(s: Seq<u8>, i: int)
    requires
        0 <= i <= s.len(),
        forall|j: int| 0 <= j < s.len() ==> s[j] != 0,
    ensures
        first_nul_from(s, i) == s.len(),
    decreases s.len() - i,
{
    if i < s.len() {
        lemma_no_nul_from(s, i + 1);
    }
}

proof fn lemma_be_bytes_value(u: nat, n: nat)
    requires
        u < vstd::arithmetic::power::pow(256, n),
    ensures
        be_value(be_bytes(u, n)) == u,
    decreases n,
{
    if n == 0 {
        vstd::arithmetic::power::lemma_pow0(256);
    } else {
        vstd::arithmetic::power::lemma_pow_adds(256, 1, (n - 1) as nat);
        vstd::arithmetic::power::lemma_pow1(256);
        assert(u / 256 < vstd::arithmetic::power::pow(256, (n - 1) as nat)) by {
            vstd::arithmetic::div_mod::lemma_div_by_multiple_is_strongly_ordered(
                u as int,
                vstd::arithmetic::power::pow(256, (n - 1) as nat) * 256,
                vstd::arithmetic::power::pow(256, (n - 1) as nat),
                256,
            );
        }
        lemma_be_bytes_value(u / 256, (n - 1) as nat);
        let bs = be_bytes(u, n);
        assert(bs.drop_last() =~= be_bytes(u / 256, (n - 1) as nat));
        assert(u == (u / 256) * 256 + u % 256) by (nonlinear_arith);
    }
}

/// Round trip of the hex codec: a number below `256^n` that fits a machine
/// word, written as its `n` big-endian bytes in hex, reads back as itself.
pub proof fn lemma_hex_round_trip(u: nat, n: nat)
    requires
        u < vstd::arithmetic::power::pow(256, n),
        u <= usize::MAX,
    ensures
        parse_hexu(hex_text(be_bytes(u, n))) == Some(u as usize),
{
    let h = hex_text(be_bytes(u, n));
    lemma_hex_text_digits(be_bytes(u, n));
    lemma_be_bytes_value(u, n);
    assert forall|j: int| 0 <= j < h.len() implies h[j] != 0 by {
        assert(hex_value(h[j]) is Some);
    }
    lemma_no_nul_from(h, 0);
    assert(until_nul(h) =~= h);
}

/// The byte at `i`, or NUL outside `s`.
pub open spec fn byte_at(s: Seq<u8>, i: int) -> u8 {
    if 0 <= i < s.len() {
        s[i]
    } else {
        0
    }
}

/// Bytes that end a token: space, comma, `#`, semicolon and colon.
pub open spec fn is_term_byte(b: u8) -> bool {
    b == 0x20 || b == 0x2c || b == 0x23 || b == 0x3b || b == 0x3a
}

/// Where the token that starts at `i` ends: the first terminator at or after `i`,
/// or the end of `s`.
pub open spec fn token_end(s: Seq<u8>, i: int) -> int
    decreases s.len() - i,
{
    if i >= s.len() {
        s.len() as int
    } else if is_term_byte(s[i]) {
        i
    } else {
        token_end(s, i + 1)
    }
}

/// The first `#` at or after `i`, or the end of `s`.
pub open spec fn hash_from(s: Seq<u8>, i: int) -> int
    decreases s.len() - i,
{
    if i >= s.len() {
        s.len() as int
    } else if s[i] == PACKET_END {
        i
    } else {
        hash_from(s, i + 1)
    }
}

/// One step forward, but never past the end of `s`.
pub open spec fn step(s: Seq<u8>, i: int) -> int {
    if i < s.len() {
        i + 1
    } else {
        s.len() as int
    }
}

/// The checksum that a received packet must carry: the bytes before the
/// first `#`, other than `$`, summed modulo 256.
pub open spec fn packet_checksum(s: Seq<u8>) -> nat {
    byte_total(s.take(hash_from(s, 0))) % 256
}

pub(crate) proof fn lemma_token_end_bounds(s: Seq<u8>, i: int)
    requires
        0 <= i <= s.len(),
    ensures
        i <= token_end(s, i) <= s.len(),
    decreases s.len() - i,
{
    if i < s.len() && !is_term_byte(s[i]) {
        lemma_token_end_bounds(s, i + 1);
    }
}

/// Where a command name that starts at `p` ends: a whole token after `v` or
/// `q`, else one byte.
pub open spec fn name_end(s: Seq<u8>, p: int) -> int {
    if byte_at(s, p) == 0x76 || byte_at(s, p) == 0x71 {
        token_end(s, p)
    } else {
        step(s, p)
    }
}

/// Where the parser stands after reading a name at `p`: a one-byte name is left in place.
pub open spec fn name_stop(s: Seq<u8>, p: int) -> int {
    if byte_at(s, p) == 0x76 || byte_at(s, p) == 0x71 {
        token_end(s, p)
    } else {
        p
    }
}

/// Whether the two digits at `i` and after are hex and denote the packet's checksum.
pub open spec fn checksum_matches(s: Seq<u8>, i: int) -> bool {
    &&& hex_value(byte_at(s, i)) is Some
    &&& hex_value(byte_at(s, step(s, i))) is Some
    &&& hex_value(byte_at(s, i))->0 * 16 + hex_value(byte_at(s, step(s, i)))->0
        == packet_checksum(s)
}

/// Where the payload of a packet ends, given where its name stopped: at
/// once if `#` follows the name, else one separator byte later and up to the next `#`.
pub open spec fn payload_end(s: Seq<u8>, q: int) -> int {
    if byte_at(s, q) == PACKET_END {
        q
    } else {
        hash_from(s, step(s, q))
    }
}

/// Where the payload of the packet that opens with `$` at `c` ends.
pub open spec fn packet_payload_end(s: Seq<u8>, c: int) -> int {
    payload_end(s, name_stop(s, c + 1))
}

/// Why the packet at `c` must be sent again, if it must.
pub open spec fn packet_error(s: Seq<u8>, c: int) -> Option<Errors> {
    let e = packet_payload_end(s, c);
    if byte_at(s, c) == NAK || byte_at(s, c) == ACK {
        None
    } else if byte_at(s, c) != PACKET_START {
        Some(Errors::UnexpectedIntroduction)
    } else if byte_at(s, e) != PACKET_END {
        Some(Errors::NotTerminated)
    } else if !checksum_matches(s, e + 1) {
        Some(Errors::InvalidChecksum)
    } else {
        None
    }
}

/// Whether a well-framed packet with a correct checksum starts at `c`.
pub open spec fn is_good_packet(s: Seq<u8>, c: int) -> bool {
    byte_at(s, c) == PACKET_START && packet_error(s, c) is None
}

/// The name of the packet that opens with `$` at `c`.
pub open spec fn packet_name(s: Seq<u8>, c: int) -> Seq<u8> {
    s.subrange(c + 1, name_end(s, c + 1))
}

/// The argument payload of the packet that opens with `$` at `c`, empty when
/// `#` follows the name.
pub open spec fn packet_args(s: Seq<u8>, c: int) -> Seq<u8> {
    let q = name_stop(s, c + 1);
    if byte_at(s, q) == PACKET_END {
        Seq::empty()
    } else {
        s.subrange(step(s, q), payload_end(s, q))
    }
}

/// The view of an optional argument slice.
pub open spec fn args_view(args: Option<&[u8]>) -> Option<Seq<u8>> {
    match args {
        Some(a) => Some(a@),
        None => None,
    }
}

/// The argument payload of the packet that opens with `$` at `c`, or `None`
/// when `#` follows the name.
pub open spec fn packet_args_view(s: Seq<u8>, c: int) -> Option<Seq<u8>> {
    if byte_at(s, name_stop(s, c + 1)) == PACKET_END {
        None
    } else {
        Some(packet_args(s, c))
    }
}

/// Where parsing stops after the packet at `c`: past `+` or `-`, on a bad
/// introduction, at the end of an unterminated payload, on the second digit of
/// a bad checksum, or past the checksum of a good packet.
pub open spec fn packet_stop(s: Seq<u8>, c: int) -> int {
    let e = packet_payload_end(s, c);
    if byte_at(s, c) == NAK || byte_at(s, c) == ACK {
        step(s, c)
    } else if byte_at(s, c) != PACKET_START {
        c
    } else if byte_at(s, e) != PACKET_END {
        e
    } else if !checksum_matches(s, e + 1) {
        step(s, e + 1)
    } else {
        step(s, step(s, e + 1))
    }
}

/// A packet that does not open with `+`, `-` or `$` is refused as an
/// unexpected introduction.
pub proof fn lemma_bad_introduction(s: Seq<u8>, c: int)
    requires
        byte_at(s, c) != NAK,
        byte_at(s, c) != ACK,
        byte_at(s, c) != PACKET_START,
    ensures
        packet_error(s, c) == Some(Errors::UnexpectedIntroduction),
{
}

/// A terminated packet whose checksum digits are one off the checksum of
/// its payload is refused for its checksum.
pub proof fn lemma_checksum_off_by_one(s: Seq<u8>, c: int, digits: u8)
    requires
        byte_at(s, c) == PACKET_START,
        byte_at(s, packet_payload_end(s, c)) == PACKET_END,
        hex_value(byte_at(s, packet_payload_end(s, c) + 1)) is Some,
        hex_value(byte_at(s, step(s, packet_payload_end(s, c) + 1))) is Some,
        digits == hex_value(byte_at(s, packet_payload_end(s, c) + 1))->0 * 16 + hex_value(
            byte_at(s, step(s, packet_payload_end(s, c) + 1)),
        )->0,
        digits == (packet_checksum(s) + 1) % 256 || (digits + 1) % 256 == packet_checksum(s),
    ensures
        packet_error(s, c) == Some(Errors::InvalidChecksum),
{
}

/// How a packet is framed, before a command is built from it.
#[derive(Debug, PartialEq)]
pub enum Framing<'a> {
    /// `-`
    RetransmitLast,
    /// `+`
    AcknowledgeLast,
    /// The packet must be sent again, for this reason.
    Rejected(Errors),
    /// A packet with a correct checksum: its name and its argument payload, if any.
    Packet { name: &'a [u8], args: Option<&'a [u8]> },
}

/// What one packet asks for: the immediate reply to its framing, and the
/// command to carry out. Either may be absent.
#[derive(Debug, PartialEq)]
pub struct Parsed<'a> {
    pub response: Option<Commands<'a>>,
    pub command: Option<Commands<'a>>,
}

impl<'a> Parsed<'a> {
    pub fn new(response: Option<Commands<'a>>, command: Option<Commands<'a>>) -> (r: Self)
        ensures
            r.response == response,
            r.command == command,
    {
        Self { response, command }
    }

    /// Acknowledges a well-framed packet and carries its command.
    pub fn ack(command: Option<Commands<'a>>) -> (r: Self)
        ensures
            acknowledges(r.response),
            r.command == command,
    {
        Self::new(Some(Commands::Acknowledge(Acknowledge::new())), command)
    }
}

/// A surface parser over one packet. It never reads past the end of its
/// input: at the end, [`Parser::peek`] yields NUL.
#[derive(Clone)]
pub struct Parser<'a> {
    packet: &'a [u8],
    current: usize,
}

impl<'a> Parser<'a> {
    /// The bytes being parsed.
    pub closed spec fn data(&self) -> Seq<u8> {
        self.packet@
    }

    /// How far parsing has come.
    pub closed spec fn position(&self) -> nat {
        self.current as nat
    }

    pub closed spec fn wf(&self) -> bool {
        self.current <= self.packet@.len()
    }

    fn retransmit(error: Errors) -> (r: Parsed<'a>)
        ensures
            r.command is None,
            requests_retransmit(r.response, error),
    {
        Parsed::new(Some(Commands::Retransmit(Retransmit::new(error))), None)
    }

    /// Reads the framing of the packet at the current position and checks its
    /// checksum. The name and the arguments it returns are slices of the input.
    pub fn parse_frame(&mut self) -> (r: Framing<'a>)
        requires
            old(self).wf(),
        ensures
            final(self).wf(),
            final(self).data() == old(self).data(),
            (final(self).position() as int) == packet_stop(old(self).data(), (old(self).position() as int)),
            (byte_at(old(self).data(), (old(self).position() as int)) == NAK) == (r is RetransmitLast),
            (byte_at(old(self).data(), (old(self).position() as int)) == ACK) == (r is AcknowledgeLast),
            packet_error(old(self).data(), (old(self).position() as int)) is Some ==> r == Framing::<
                'a,
            >::Rejected(packet_error(old(self).data(), (old(self).position() as int))->0),
            is_good_packet(old(self).data(), (old(self).position() as int)) == (r is Packet),
            r matches Framing::Packet { name, args } ==> {
                let s = old(self).data();
                let p = (old(self).position() as int) + 1;
                let q = name_stop(s, p);
                &&& name@ == s.subrange(p, name_end(s, p))
                &&& args is None == (byte_at(s, q) == PACKET_END)
                &&& args matches Some(a) ==> a@ == s.subrange(step(s, q), payload_end(s, q))
            },
    {
        let ghost s = self.data();
        let ghost c = (self.position() as int);
        if self.is_match(NAK) {
            return Framing::RetransmitLast;
        } else if self.is_match(ACK) {
            return Framing::AcknowledgeLast;
        }
        if !self.is_match(PACKET_START) {
            return Framing::Rejected(Errors::UnexpectedIntroduction);
        }
        proof {
            lemma_token_end_bounds(s, c + 1);
        }
        let name = self.parse_name();
        let ghost q = (self.position() as int);
        let args = if self.peek() != PACKET_END {
            self.advance();
            Some(self.parse_until_end())
        } else {
            None
        };
        if !self.is_match(PACKET_END) {
            return Framing::Rejected(Errors::NotTerminated);
        }
        if !self.verify_chksm() {
            return Framing::Rejected(Errors::InvalidChecksum);
        }
        self.advance();
        Framing::Packet { name, args }
    }

    /// Parses the packet at the current position. `+` and `-` are answered
    /// at once; a packet that is badly introduced, not terminated or has a
    /// wrong checksum gets a retransmit request and no command; a good packet
    /// is acknowledged and `cmds` builds its command.
    pub fn parse_packet<C: SupportedCommands<'a>>(&mut self, cmds: &C) -> (r: Parsed<'a>)
        requires
            old(self).wf(),
        ensures
            is_good_packet(old(self).data(), (old(self).position() as int)) ==> exists|
                name: &'a [u8],
                args: Option<&'a [u8]>,
            |
                #[trigger] call_ensures(C::commands, (cmds, name, args), r) && name@ == packet_name(
                    old(self).data(),
                    (old(self).position() as int),
                ) && args_view(args) == packet_args_view(
                    old(self).data(),
                    (old(self).position() as int),
                ),
            final(self).wf(),
            final(self).data() == old(self).data(),
            (final(self).position() as int) == packet_stop(old(self).data(), (old(self).position() as int)),
            byte_at(old(self).data(), (old(self).position() as int)) == NAK ==> r.command is None
                && r.response == Some(Commands::<'a>::RetransmitLast),
            byte_at(old(self).data(), (old(self).position() as int)) == ACK ==> r.command is None
                && r.response == Some(Commands::<'a>::AcknowledgeLast),
            packet_error(old(self).data(), (old(self).position() as int)) is Some ==> r.command is None
                && requests_retransmit(r.response, packet_error(old(self).data(), (old(self).position() as int))->0),
            is_good_packet(old(self).data(), (old(self).position() as int)) ==> acknowledges(r.response),
            is_good_packet(old(self).data(), (old(self).position() as int)) && !cmds.takes_over(
                packet_name(old(self).data(), (old(self).position() as int)),
            ) ==> builds_required(
                packet_name(old(self).data(), (old(self).position() as int)),
                packet_args(old(self).data(), (old(self).position() as int)),
                r.command,
            ),
    {
        match self.parse_frame() {
            Framing::RetransmitLast => Parsed::new(Some(Commands::RetransmitLast), None),
            Framing::AcknowledgeLast => Parsed::new(Some(Commands::AcknowledgeLast), None),
            Framing::Rejected(e) => Self::retransmit(e),
            Framing::Packet { name, args } => {
                let r = cmds.commands(name, args);
                assert(call_ensures(C::commands, (cmds, name, args), r));
                r
            },
        }
    }

    pub fn new(packet: &'a [u8]) -> (r: Self)
        ensures
            r.wf(),
            r.data() == packet@,
            r.position() as int == 0,
    {
        Self { packet, current: 0 }
    }

    pub fn is_at_end(&self) -> (r: bool)
        requires
            self.wf(),
        ensures
            r == ((self.position() as int) == self.data().len()),
    {
        self.current >= self.packet.len()
    }

    /// The current byte, or NUL at the end.
    pub fn peek(&self) -> (r: u8)
        ensures
            r == byte_at(self.data(), (self.position() as int)),
    {
        if self.current < self.packet.len() {
            self.packet[self.current]
        } else {
            0
        }
    }

    /// The byte after the current one, or NUL past the end.
    pub fn next(&self) -> (r: u8)
        requires
            self.wf(),
        ensures
            r == byte_at(self.data(), (self.position() as int) + 1),
    {
        if self.current < self.packet.len() && self.current + 1 < self.packet.len() {
            self.packet[self.current + 1]
        } else {
            0
        }
    }

    /// Moves one byte forward, stopping at the end, and returns the new current byte.
    pub fn advance(&mut self) -> (r: u8)
        requires
            old(self).wf(),
        ensures
            final(self).wf(),
            final(self).data() == old(self).data(),
            (final(self).position() as int) == step(old(self).data(), (old(self).position() as int)),
            r == byte_at(final(self).data(), (final(self).position() as int)),
    {
        if self.current < self.packet.len() {
            self.current = self.current + 1;
        }
        self.peek()
    }

    pub fn is_term(&self) -> (r: bool)
        ensures
            r == is_term_byte(byte_at(self.data(), (self.position() as int))),
    {
        let b = self.peek();
        b == 0x20 || b == 0x2c || b == PACKET_END || b == 0x3b || b == 0x3a
    }

    /// Consumes the current byte if it is `c`.
    pub fn is_match(&mut self, c: u8) -> (r: bool)
        requires
            old(self).wf(),
        ensures
            final(self).wf(),
            final(self).data() == old(self).data(),
            r == (byte_at(old(self).data(), (old(self).position() as int)) == c),
            (final(self).position() as int) == if r {
                step(old(self).data(), (old(self).position() as int))
            } else {
                (old(self).position() as int)
            },
    {
        if self.peek() == c {
            self.advance();
            true
        } else {
            false
        }
    }

    /// Reads up to the next terminator, which is left in place.
    pub fn parse_token(&mut self) -> (r: &'a [u8])
        requires
            old(self).wf(),
        ensures
            final(self).wf(),
            final(self).data() == old(self).data(),
            (final(self).position() as int) == token_end(old(self).data(), (old(self).position() as int)),
            r@ == old(self).data().subrange((old(self).position() as int), (final(self).position() as int)),
    {
        let start = self.current;
        while !self.is_at_end() && !self.is_term()
            invariant
                self.wf(),
                self.packet == old(self).packet,
                start <= self.current,
                token_end(self.data(), start as int) == token_end(self.data(), (self.position() as int)),
            decreases self.packet@.len() - self.current,
        {
            self.advance();
        }
        vstd::slice::slice_subrange(self.packet, start, self.current)
    }

    /// Reads the rest of the payload: everything up to, not including, the next `#`.
    pub fn parse_until_end(&mut self) -> (r: &'a [u8])
        requires
            old(self).wf(),
        ensures
            final(self).wf(),
            final(self).data() == old(self).data(),
            (final(self).position() as int) == hash_from(old(self).data(), (old(self).position() as int)),
            r@ == old(self).data().subrange((old(self).position() as int), (final(self).position() as int)),
    {
        let start = self.current;
        while self.peek() != PACKET_END && !self.is_at_end()
            invariant
                self.wf(),
                self.packet == old(self).packet,
                start <= self.current,
                hash_from(self.data(), start as int) == hash_from(self.data(), (self.position() as int)),
            decreases self.packet@.len() - self.current,
        {
            self.advance();
        }
        vstd::slice::slice_subrange(self.packet, start, self.current)
    }

    /// Reads a command name: a whole token for names that start with `v` or
    /// `q`, else the single current byte, which is then left in place.
    pub fn parse_name(&mut self) -> (r: &'a [u8])
        requires
            old(self).wf(),
        ensures
            final(self).wf(),
            final(self).data() == old(self).data(),
            (final(self).position() as int) == name_stop(old(self).data(), (old(self).position() as int)),
            r@ == old(self).data().subrange(
                (old(self).position() as int),
                name_end(old(self).data(), (old(self).position() as int)),
            ),
    {
        let b = self.peek();
        if b == 0x76 || b == 0x71 {
            self.parse_token()
        } else if self.current < self.packet.len() {
            vstd::slice::slice_subrange(self.packet, self.current, self.current + 1)
        } else {
            vstd::slice::slice_subrange(self.packet, self.current, self.current)
        }
    }

    /// The next token and the terminator after it, or `None` at the end.
    pub fn next_token(&mut self) -> (r: Option<&'a [u8]>)
        requires
            old(self).wf(),
        ensures
            final(self).wf(),
            final(self).data() == old(self).data(),
            (old(self).position() as int) == old(self).data().len() ==> r is None && (final(self).position() as int)
                == (old(self).position() as int),
            (old(self).position() as int) < old(self).data().len() ==> r is Some && r->0@ == old(
                self,
            ).data().subrange((old(self).position() as int), token_end(old(self).data(), (old(self).position() as int)))
                && (final(self).position() as int) == step(
                old(self).data(),
                token_end(old(self).data(), (old(self).position() as int)),
            ),
    {
        if !self.is_at_end() {
            let token = self.parse_token();
            self.advance();
            Some(token)
        } else {
            None
        }
    }

    fn add_chksm(response_data: &[u8]) -> (r: u32)
        ensures
            r == sink_sum(response_data@.take(hash_from(response_data@, 0))),
    {
        let ghost s = response_data@;
        let mut sum: u32 = 0;
        let mut i: usize = 0;
        while i < response_data.len() && response_data[i] != PACKET_END
            invariant
                i <= response_data.len(),
                s == response_data@,
                hash_from(s, 0) == hash_from(s, i as int),
                sum == sink_sum(s.take(i as int)),
            decreases response_data.len() - i,
        {
            let b = response_data[i];
            proof {
                crate::stream::lemma_sum_push(s.take(i as int), b);
                assert(s.take(i + 1) =~= s.take(i as int).push(b));
            }
            if b != PACKET_START {
                sum = sum.wrapping_add(b as u32);
            }
            i = i + 1;
        }
        sum
    }

    /// The checksum of a received packet; see [`packet_checksum`].
    pub fn chksm(response_data: &[u8]) -> (r: u32)
        ensures
            r == packet_checksum(response_data@),
    {
        let ghost t = byte_total(response_data@.take(hash_from(response_data@, 0)));
        proof {
            vstd::arithmetic::div_mod::lemma_mod_mod(t as int, 256, 0x1000000);
        }
        Self::add_chksm(response_data) % 256
    }

    /// Reads the two checksum digits at the current position and compares
    /// them with the checksum of the whole packet. Leaves the parser on the
    /// second digit.
    pub fn verify_chksm(&mut self) -> (r: bool)
        requires
            old(self).wf(),
        ensures
            final(self).wf(),
            final(self).data() == old(self).data(),
            (final(self).position() as int) == step(old(self).data(), (old(self).position() as int)),
            r == checksum_matches(old(self).data(), (old(self).position() as int)),
    {
        let b0 = Self::from_hex(self.peek());
        let b1 = Self::from_hex(self.advance());
        match (b0, b1) {
            (Some(h), Some(l)) => {
                let sum = h * 16 + l;
                let calc = Self::chksm(self.packet) as u8;
                sum == calc
            },
            _ => false,
        }
    }
    pub fn is_digit(b: u8) -> (r: bool)
        ensures
            r == (0x30 <= b <= 0x39),
    {
        0x30 <= b && b <= 0x39
    }

    pub fn is_hex(b: u8) -> (r: bool)
        ensures
            r == (0x61 <= b <= 0x66 || 0x41 <= b <= 0x46),
    {
        (0x61 <= b && b <= 0x66) || (0x41 <= b && b <= 0x46)
    }

    pub fn is_hex_digit(b: u8) -> (r: bool)
        ensures
            r == (hex_value(b) is Some),
    {
        Self::is_hex(b) || Self::is_digit(b)
    }

    pub fn from_hex(b: u8) -> (r: Option<u8>)
        ensures
            r == hex_value(b),
    {
        if 0x30 <= b && b <= 0x39 {
            Some(b - 0x30)
        } else if 0x41 <= b && b <= 0x46 {
            Some(b - 0x41 + 10)
        } else if 0x61 <= b && b <= 0x66 {
            Some(b - 0x61 + 10)
        } else {
            None
        }
    }

    /// Reads a hex field of any length up to the machine word: it ends at the
    /// first NUL, and an empty field is zero.
    pub fn from_hexu(b: &[u8]) -> (r: Option<usize>)
        ensures
            r == parse_hexu(b@),
    {
        let ghost s = b@;
        let mut end: usize = 0;
        while end < b.len() && b[end] != 0
            invariant
                end <= b.len(),
                s == b@,
                first_nul_from(s, 0) == first_nul_from(s, end as int),
            decreases b.len() - end,
        {
            end = end + 1;
        }
        let ghost d = until_nul(s);
        assert(d =~= s.take(end as int));
        let mut result: usize = 0;
        let mut i: usize = 0;
        while i < end
            invariant
                i <= end <= b.len(),
                s == b@,
                d == s.take(end as int),
                d == until_nul(s),
                all_hex(d.take(i as int)),
                result as nat == hex_number(d.take(i as int)),
            decreases end - i,
        {
            proof {
                assert(d.take(i + 1) =~= d.take(i as int).push(d[i as int]));
                lemma_hex_number_push(d.take(i as int), d[i as int]);
            }
            assert(d[i as int] == b@[i as int]);
            match Self::from_hex(b[i]) {
                Some(v) => {
                    if result > usize::MAX / 16 || result * 16 > usize::MAX - v as usize {
                        proof {
                            lemma_hex_number_prefix(d, i + 1);
                            assert(hex_number(d.take(i + 1)) == result * 16 + v);
                            assert(hex_number(d) > usize::MAX) by (nonlinear_arith)
                                requires
                                    hex_number(d.take(i + 1)) <= hex_number(d),
                                    hex_number(d.take(i + 1)) == result * 16 + v,
                                    result > usize::MAX / 16 || result * 16 > usize::MAX - v,
                            ;
                        }
                        return None;
                    }
                    result = result * 16 + v as usize;
                },
                None => {
                    assert(hex_value(d[i as int]) is None);
                    assert(!all_hex(d));
                    return None;
                },
            }
            i = i + 1;
        }
        assert(d.take(end as int) =~= d);
        Some(result)
    }

    /// The lowercase hex digit of a nibble; `None` from 16 up.
    pub fn to_hex(b: u8) -> (r: Option<u8>)
        ensures
            r == if b < 16 {
                Some(nibble_char(b))
            } else {
                None
            },
    {
        if b >= 16 {
            None
        } else if b <= 9 {
            Some(b + 0x30)
        } else {
            Some(b + 0x61 - 10)
        }
    }

    /// Both hex digits of a byte, high nibble first.
    pub fn to_hex_tuple(b: u8) -> (r: (u8, u8))
        ensures
            seq![r.0, r.1] == hex_pair(b),
    {
        let h = (b >> 4u8) & 0xF;
        let l = b & 0xF;
        assert(h == b / 16 && l == b % 16) by (bit_vector)
            requires
                h == (b >> 4u8) & 0xF,
                l == b & 0xF,
        ;
        let hc = Self::to_hex(h);
        let lc = Self::to_hex(l);
        match (hc, lc) {
            (Some(x), Some(y)) => (x, y),
            _ => (0, 0),
        }
    }

    /// Writes a byte to the sink as two hex digits.
    pub fn to_hex8<S: Stream>(b: u8, stream: &mut S) -> (r: Result<(), Errors>)
        requires
            old(stream).inv(),
        ensures
            final(stream).inv(),
            final(stream).capacity() == old(stream).capacity(),
            r is Ok ==> final(stream).written() == old(stream).written() + hex_pair(b),
            r matches Err(e) ==> e == Errors::MemoryFilledInterupt,
            advances(*old(stream), *final(stream), 2, r is Ok),
    {
        let t = Self::to_hex_tuple(b);
        stream.write(t.0)?;
        stream.write(t.1)?;
        assert(final(stream).written() =~= old(stream).written() + hex_pair(b));
        Ok(())
    }

    /// Writes bytes to the sink as hex text, two digits per byte, in order.
    pub fn to_hexu<S: Stream>(b: &[u8], stream: &mut S) -> (r: Result<(), Errors>)
        requires
            old(stream).inv(),
        ensures
            final(stream).inv(),
            final(stream).capacity() == old(stream).capacity(),
            r is Ok ==> final(stream).written() == old(stream).written() + hex_text(b@),
            r matches Err(e) ==> e == Errors::MemoryFilledInterupt,
            advances(*old(stream), *final(stream), 2 * b@.len(), r is Ok),
    {
        let mut i: usize = 0;
        while i < b.len()
            invariant
                i <= b.len(),
                stream.inv(),
                stream.capacity() == old(stream).capacity(),
                stream.written() == old(stream).written() + hex_text(b@.take(i as int)),
                old(stream).cursor() + 2 * i <= old(stream).capacity() ==> stream.cursor() == old(
                    stream,
                ).cursor() + 2 * i,
            decreases b.len() - i,
        {
            assert(b@.take(i + 1).drop_last() =~= b@.take(i as int));
            Self::to_hex8(b[i], stream)?;
            assert(stream.written() =~= old(stream).written() + hex_text(b@.take(i + 1)));
            i = i + 1;
        }
        assert(b@.take(i as int) =~= b@);
        Ok(())
    }
}

} // verus!

verus! {

/// Byte order of a target's registers.
#[derive(Debug, Clone, Copy, PartialEq, Eq, Structural)]
pub enum Endianness {
    Big,
    Little,
}

} // verus!
