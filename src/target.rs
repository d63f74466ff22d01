use crate::error::Errors;
use crate::parser::{
    be_bytes, hex_number, hex_pair, hex_text, hex_value, nibble_char, parse_hexu, until_nul, Endianness,
    Parser,
};
use crate::stream::{advances, Stream};
use vstd::prelude::*;

verus! {

/// What a target does for the commands. A target states, through its spec
/// functions, what each method produces. Those describe by default a target
/// that halted on a trap (`S05`) and supports nothing else: no register or
/// memory text, and writes that are accepted and change nothing.
///
/// A method that writes to the sink only appends, and fails only when the
/// sink has no room for what it writes.
pub trait Target {
    /// What the target's own state must satisfy between calls.
    open spec fn inv(&self) -> bool {
        true
    }

    /// Why the target halted, as ASCII (for example `S05`: trap).
    open spec fn reason_text(&self) -> Seq<u8> {
        seq![0x53u8, 0x30u8, 0x35u8]
    }

    /// The hex text of every register.
    open spec fn registers_text(&self) -> Seq<u8> {
        Seq::empty()
    }

    /// What setting the registers from hex text `data` returns.
    open spec fn registers_outcome(&self, data: Seq<u8>) -> Result<usize, Errors> {
        Ok(0)
    }

    /// Whether `after` is this target with its registers set from `data`.
    open spec fn registers_written(&self, data: Seq<u8>, after: &Self) -> bool {
        true
    }

    /// The hex text of `size` bytes of memory from `start`.
    open spec fn memory_text(&self, start: usize, size: usize) -> Seq<u8> {
        Seq::empty()
    }

    /// What storing the bytes of hex text `data` from `start` on returns.
    open spec fn memory_outcome(&self, start: usize, data: Seq<u8>) -> Result<usize, Errors> {
        Ok(0)
    }

    /// Whether `after` is this target with the bytes of `data` stored from `start` on.
    open spec fn memory_written(&self, start: usize, data: Seq<u8>, after: &Self) -> bool {
        true
    }

    fn reason(&self) -> (r: &[u8])
        requires
            self.inv(),
        ensures
            r@ == self.reason_text(),
            r@.len() <= isize::MAX,
    ;

    /// Writes every register as hex text.
    fn rd_registers<S: Stream>(&self, stream: &mut S) -> (r: Result<usize, Errors>)
        requires
            self.inv(),
            old(stream).inv(),
        ensures
            final(stream).inv(),
            final(stream).capacity() == old(stream).capacity(),
            r matches Ok(n) ==> n == self.registers_text().len() && final(stream).written() == old(
                stream,
            ).written() + self.registers_text(),
            r matches Err(e) ==> e == Errors::MemoryFilledInterupt,
            advances(*old(stream), *final(stream), self.registers_text().len(), r is Ok),
    ;

    /// Sets every register from hex text.
    fn wr_registers(&mut self, data: &[u8]) -> (r: Result<usize, Errors>)
        requires
            old(self).inv(),
        ensures
            final(self).inv(),
            r == old(self).registers_outcome(data@),
            r is Ok ==> old(self).registers_written(data@, final(self)),
    ;

    /// Writes `size` bytes of memory from `start` as hex text.
    fn rd_memory<S: Stream>(&self, start: usize, size: usize, stream: &mut S) -> (r: Result<
        usize,
        Errors,
    >)
        requires
            self.inv(),
            old(stream).inv(),
        ensures
            final(stream).inv(),
            final(stream).capacity() == old(stream).capacity(),
            r matches Ok(n) ==> n == self.memory_text(start, size).len() && final(stream).written()
                == old(stream).written() + self.memory_text(start, size),
            r matches Err(e) ==> e == Errors::MemoryFilledInterupt,
            advances(*old(stream), *final(stream), self.memory_text(start, size).len(), r is Ok),
    ;

    /// Stores the bytes that `data` holds as hex text from `start` on.
    fn wr_memory(&mut self, start: usize, data: &[u8]) -> (r: Result<usize, Errors>)
        requires
            old(self).inv(),
        ensures
            final(self).inv(),
            r == old(self).memory_outcome(start, data@),
            r is Ok ==> old(self).memory_written(start, data@, final(self)),
    ;

    fn endianess(&self) -> (r: Endianness) {
        Endianness::Little
    }
}

} // verus!

verus! {

/// Number of registers of the [`VirtualTarget`].
pub const REGISTER_COUNT: usize = 38;

/// Bytes of memory of the [`VirtualTarget`].
pub const MEMORY_SIZE: usize = 512;

/// Where the program counter of the [`VirtualTarget`] starts: its reset
/// vector, `0xBFC00000`, stored with its bytes swapped.
pub const RESET_VECTOR: u32 = 0x0000_C0BF;

/// The four bytes of a register word, most significant first.
pub open spec fn word_bytes(w: u32) -> Seq<u8> {
    be_bytes(w as nat, 4)
}

/// The hex text of a register file: each word as eight digits, in order.
pub open spec fn registers_hex(regs: Seq<u32>) -> Seq<u8>
    decreases regs.len(),
{
    if regs.len() == 0 {
        Seq::empty()
    } else {
        registers_hex(regs.drop_last()) + hex_text(word_bytes(regs.last()))
    }
}

/// The `i`-th piece of `width` bytes of `data`; the last one may be shorter.
pub open spec fn piece(data: Seq<u8>, width: int, i: int) -> Seq<u8> {
    data.subrange(width * i, if width * i + width <= data.len() {
        width * i + width
    } else {
        data.len() as int
    })
}

/// How many pieces of `width` bytes `data` splits into.
pub open spec fn piece_count(data: Seq<u8>, width: int) -> int {
    (data.len() + width - 1) / width
}

/// Whether register text sets every register: eight hex digits for each.
pub open spec fn registers_ok(data: Seq<u8>) -> bool {
    &&& data.len() == 8 * REGISTER_COUNT
    &&& forall|i: int| 0 <= i < REGISTER_COUNT ==> (#[trigger] parse_hexu(piece(data, 8, i))) is Some
}

/// The register file that register text sets.
pub open spec fn registers_from(data: Seq<u8>) -> Seq<u32> {
    Seq::new(REGISTER_COUNT as nat, |i: int| parse_hexu(piece(data, 8, i))->0 as u32)
}

/// Whether the bytes of a memory write of hex text `data` at `start` stay
/// inside the memory; the last byte may have one digit.
pub open spec fn write_in_range(start: usize, data: Seq<u8>) -> bool {
    start + piece_count(data, 2) <= MEMORY_SIZE
}

/// Whether every pair of digits of `data` reads as a number.
pub open spec fn bytes_ok(data: Seq<u8>) -> bool {
    forall|i: int| 0 <= i < piece_count(data, 2) ==> (#[trigger] parse_hexu(piece(data, 2, i))) is Some
}

/// Memory after the bytes of hex text `data` are stored from `start` on.
pub open spec fn memory_after(mem: Seq<u8>, start: int, data: Seq<u8>) -> Seq<u8> {
    Seq::new(
        mem.len(),
        |j: int|
            if start <= j < start + piece_count(data, 2) {
                parse_hexu(piece(data, 2, j - start))->0 as u8
            } else {
                mem[j]
            },
    )
}

/// A target simulated in memory: a MIPS-like machine with [`REGISTER_COUNT`]
/// 32-bit registers and [`MEMORY_SIZE`] bytes of memory, addressed by index.
pub struct VirtualTarget {
    pub registers: Vec<u32>,
    pub memory: Vec<u8>,
}

impl VirtualTarget {
    pub open spec fn registers(&self) -> Seq<u32> {
        self.registers@
    }

    pub open spec fn memory(&self) -> Seq<u8> {
        self.memory@
    }

    /// Every register holds 1 and the program counter, the last register,
    /// holds the reset vector, each stored with its bytes swapped; memory is zero.
    pub fn new() -> (r: Self)
        ensures
            r.inv(),
            r.registers() == Seq::new(
                REGISTER_COUNT as nat,
                |i: int|
                    if i == REGISTER_COUNT - 1 {
                        RESET_VECTOR
                    } else {
                        0x0100_0000u32
                    },
            ),
            r.memory() == Seq::new(MEMORY_SIZE as nat, |i: int| 0u8),
    {
        let mut registers: Vec<u32> = vec![0x0100_0000u32; REGISTER_COUNT];
        registers.set(REGISTER_COUNT - 1, RESET_VECTOR);
        let memory: Vec<u8> = vec![0u8; MEMORY_SIZE];
        let r = Self { memory, registers };
        assert(r.registers() =~= Seq::new(
            REGISTER_COUNT as nat,
            |i: int|
                if i == REGISTER_COUNT - 1 {
                    RESET_VECTOR
                } else {
                    0x0100_0000u32
                },
        ));
        assert(r.memory() =~= Seq::new(MEMORY_SIZE as nat, |i: int| 0u8));
        r
    }
}

/// The bytes of a word, most significant first.
fn word_to_bytes(w: u32) -> (r: [u8; 4])
    ensures
        r@ == word_bytes(w),
{
    let r = [(w >> 24u32) as u8, (w >> 16u32) as u8, (w >> 8u32) as u8, w as u8];
    proof {
        let u = w as nat;
        reveal_with_fuel(be_bytes, 5);
        assert(((w >> 24u32) as u8) == (w / 0x100_0000) % 256
            && ((w >> 16u32) as u8) == (w / 0x1_0000) % 256
            && ((w >> 8u32) as u8) == (w / 0x100) % 256
            && (w as u8) == w % 256) by (bit_vector);
        assert(u / 256 / 256 == u / 0x1_0000) by {
            vstd::arithmetic::div_mod::lemma_div_denominator(u as int, 256, 256);
        }
        assert(u / 256 / 256 / 256 == u / 0x100_0000) by {
            vstd::arithmetic::div_mod::lemma_div_denominator(u as int, 0x1_0000, 256);
        }
        assert(r@ =~= word_bytes(w));
    }
    r
}

impl Target for VirtualTarget {
    open spec fn inv(&self) -> bool {
        self.registers@.len() == REGISTER_COUNT && self.memory@.len() == MEMORY_SIZE
    }

    open spec fn reason_text(&self) -> Seq<u8> {
        seq![0x53u8, 0x30u8, 0x35u8]
    }

    open spec fn registers_text(&self) -> Seq<u8> {
        registers_hex(self.registers@)
    }

    open spec fn registers_outcome(&self, data: Seq<u8>) -> Result<usize, Errors> {
        if registers_ok(data) {
            Ok(0)
        } else {
            Err(Errors::CommandError)
        }
    }

    open spec fn registers_written(&self, data: Seq<u8>, after: &Self) -> bool {
        after.registers@ == registers_from(data) && after.memory@ == self.memory@
    }

    open spec fn memory_text(&self, start: usize, size: usize) -> Seq<u8> {
        hex_text(self.memory@.subrange(clip(start as int), clip(start + size)))
    }

    open spec fn memory_outcome(&self, start: usize, data: Seq<u8>) -> Result<usize, Errors> {
        if !write_in_range(start, data) {
            Err(Errors::AddressOutOfRange)
        } else if !bytes_ok(data) {
            Err(Errors::CommandError)
        } else {
            Ok(0)
        }
    }

    open spec fn memory_written(&self, start: usize, data: Seq<u8>, after: &Self) -> bool {
        after.memory@ == memory_after(self.memory@, start as int, data) && after.registers@
            == self.registers@
    }

    /// The target always reports a trap: `S05`.
    fn reason(&self) -> (r: &[u8]) {
        let r: &[u8] = &[0x53, 0x30, 0x35];
        r
    }

    fn endianess(&self) -> (r: Endianness)
        ensures
            r == Endianness::Big,
    {
        Endianness::Big
    }

    /// Writes each register as the hex digits of its four bytes, most significant first.
    fn rd_registers<S: Stream>(&self, stream: &mut S) -> (r: Result<usize, Errors>)
        ensures
            r matches Ok(n) ==> n == 8 * REGISTER_COUNT && final(stream).written() == old(
                stream,
            ).written() + registers_hex(self.registers()),
            r matches Err(e) ==> e == Errors::MemoryFilledInterupt,
            advances(*old(stream), *final(stream), 8 * REGISTER_COUNT as nat, r is Ok),
    {
        proof {
            lemma_registers_hex_len(self.registers@);
        }
        let mut i: usize = 0;
        while i < self.registers.len()
            invariant
                self.inv(),
                i <= REGISTER_COUNT,
                stream.inv(),
                stream.capacity() == old(stream).capacity(),
                stream.written() == old(stream).written() + registers_hex(
                    self.registers@.take(i as int),
                ),
                registers_hex(self.registers@).len() == 8 * REGISTER_COUNT,
                old(stream).cursor() + 8 * i <= old(stream).capacity() ==> stream.cursor() == old(
                    stream,
                ).cursor() + 8 * i,
            decreases REGISTER_COUNT - i,
        {
            let bytes = word_to_bytes(self.registers[i]);
            Parser::to_hexu(&bytes, stream)?;
            proof {
                assert(self.registers@.take(i + 1).drop_last() =~= self.registers@.take(i as int));
            }
            assert(stream.written() =~= old(stream).written() + registers_hex(
                self.registers@.take(i + 1),
            ));
            i = i + 1;
        }
        assert(self.registers@.take(i as int) =~= self.registers@);
        proof {
            lemma_prefix_extends(old(stream).written(), registers_hex(self.registers@));
            lemma_registers_hex_len(self.registers@);
        }
        Ok(8 * REGISTER_COUNT)
    }

    /// Sets every register from eight hex digits each. Text of another
    /// length, or digits that do not read as a number, are refused; registers
    /// before the first bad one are then already set.
    fn wr_registers(&mut self, data: &[u8]) -> (r: Result<usize, Errors>)
        ensures
            final(self).memory() == old(self).memory(),
            registers_ok(data@) ==> r == Ok::<usize, Errors>(0) && final(self).registers()
                == registers_from(data@),
            !registers_ok(data@) ==> r == Err::<usize, Errors>(Errors::CommandError),
            data@.len() != 8 * REGISTER_COUNT ==> *final(self) == *old(self),
    {
        if data.len() % 8 != 0 || data.len() != self.registers.len() * 8 {
            return Err(Errors::CommandError);
        }
        let ghost d = data@;
        let mut i: usize = 0;
        while i < REGISTER_COUNT
            invariant
                self.inv(),
                d == data@,
                d.len() == 8 * REGISTER_COUNT,
                i <= REGISTER_COUNT,
                self.memory@ == old(self).memory@,
                forall|k: int| 0 <= k < i ==> (#[trigger] parse_hexu(piece(d, 8, k))) is Some,
                forall|k: int| 0 <= k < i ==> self.registers@[k] == registers_from(d)[k],
            decreases REGISTER_COUNT - i,
        {
            let chunk = vstd::slice::slice_subrange(data, 8 * i, 8 * i + 8);
            assert(chunk@ == piece(d, 8, i as int));
            match Parser::from_hexu(chunk) {
                Some(value) => {
                    self.registers.set(i, value as u32);
                },
                None => {
                    return Err(Errors::CommandError);
                },
            }
            i = i + 1;
        }
        assert(self.registers@ =~= registers_from(d));
        Ok(0)
    }

    /// Writes `size` bytes from index `start` as hex text, clipped to the memory.
    fn rd_memory<S: Stream>(&self, start: usize, size: usize, stream: &mut S) -> (r: Result<
        usize,
        Errors,
    >)
        ensures
            r matches Ok(n) ==> final(stream).written() == old(stream).written() + hex_text(
                self.memory().subrange(clip(start as int), clip(start + size)),
            ) && n == 2 * (clip(start + size) - clip(start as int)),
            r matches Err(e) ==> e == Errors::MemoryFilledInterupt,
            advances(
                *old(stream),
                *final(stream),
                (2 * (clip(start + size) - clip(start as int))) as nat,
                r is Ok,
            ),
    {
        let first = if start < MEMORY_SIZE {
            start
        } else {
            MEMORY_SIZE
        };
        let end = if size < MEMORY_SIZE - first {
            first + size
        } else {
            MEMORY_SIZE
        };
        let bytes = vstd::slice::slice_subrange(self.memory.as_slice(), first, end);
        proof {
            crate::parser::lemma_hex_text_len(bytes@);
        }
        Parser::to_hexu(bytes, stream)?;
        proof {
            lemma_prefix_extends(old(stream).written(), hex_text(bytes@));
        }
        Ok(2 * (end - first))
    }

    /// Stores the bytes of hex text `data` from index `start` on, two digits
    /// each; the last byte may have one digit.
    fn wr_memory(&mut self, start: usize, data: &[u8]) -> (r: Result<usize, Errors>)
        ensures
            final(self).registers() == old(self).registers(),
            !write_in_range(start, data@) ==> r == Err::<usize, Errors>(
                Errors::AddressOutOfRange,
            ) && *final(self) == *old(self),
            write_in_range(start, data@) && bytes_ok(data@) ==> r == Ok::<usize, Errors>(0)
                && final(self).memory() == memory_after(old(self).memory(), start as int, data@),
            write_in_range(start, data@) && !bytes_ok(data@) ==> r == Err::<usize, Errors>(
                Errors::CommandError,
            ),
    {
        let ghost d = data@;
        let ghost m = self.memory@;
        let count = data.len() / 2 + data.len() % 2;
        assert(count == piece_count(d, 2));
        if start > MEMORY_SIZE || count > MEMORY_SIZE - start {
            return Err(Errors::AddressOutOfRange);
        }
        let mut i: usize = 0;
        while i < count
            invariant
                self.inv(),
                d == data@,
                start + count <= MEMORY_SIZE,
                count == piece_count(d, 2),
                i <= count,
                self.registers@ == old(self).registers@,
                m == old(self).memory@,
                m.len() == MEMORY_SIZE,
                forall|k: int| 0 <= k < i ==> (#[trigger] parse_hexu(piece(d, 2, k))) is Some,
                forall|j: int|
                    0 <= j < MEMORY_SIZE ==> self.memory@[j] == if start <= j < start + i {
                        memory_after(m, start as int, d)[j]
                    } else {
                        m[j]
                    },
            decreases count - i,
        {
            let hi = if 2 * i + 2 <= data.len() {
                2 * i + 2
            } else {
                data.len()
            };
            let chunk = vstd::slice::slice_subrange(data, 2 * i, hi);
            assert(chunk@ == piece(d, 2, i as int));
            match Parser::from_hexu(chunk) {
                Some(value) => {
                    self.memory.set(i + start, value as u8);
                    assert forall|j: int| 0 <= j < MEMORY_SIZE implies self.memory@[j] == if start
                        <= j < start + i + 1 {
                        memory_after(m, start as int, d)[j]
                    } else {
                        m[j]
                    } by {
                        if j == start + i {
                            assert(memory_after(m, start as int, d)[j] == value as u8);
                        }
                    }
                },
                None => {
                    return Err(Errors::CommandError);
                },
            }
            i = i + 1;
        }
        assert(self.memory@ =~= memory_after(m, start as int, d));
        Ok(0)
    }
}

proof fn lemma_registers_hex_len(regs: Seq<u32>)
    ensures
        registers_hex(regs).len() == 8 * regs.len(),
    decreases regs.len(),
{
    if regs.len() > 0 {
        lemma_registers_hex_len(regs.drop_last());
        reveal_with_fuel(be_bytes, 5);
        crate::parser::lemma_hex_text_len(word_bytes(regs.last()));
    }
}

/// Clips an index to the memory of the [`VirtualTarget`].
pub open spec fn clip(i: int) -> int {
    if i < MEMORY_SIZE {
        i
    } else {
        MEMORY_SIZE as int
    }
}

proof fn lemma_prefix_extends(a: Seq<u8>, b: Seq<u8>)
    ensures
        a.is_prefix_of(a + b),
{
    assert((a + b).take(a.len() as int) =~= a);
}

} // verus!

verus! {

/// A lowercase ASCII hex digit, as this target writes them.
pub open spec fn is_lower_hex(b: u8) -> bool {
    (0x30 <= b <= 0x39) || (0x61 <= b <= 0x66)
}

proof fn lemma_lower_digit(b: u8)
    requires
        is_lower_hex(b),
    ensures
        hex_value(b) is Some,
        hex_value(b)->0 < 16,
        nibble_char(hex_value(b)->0) == b,
{
}

proof fn lemma_lower_text(d: Seq<u8>, n: nat)
    requires
        d.len() == 2 * n,
        forall|i: int| 0 <= i < d.len() ==> is_lower_hex(#[trigger] d[i]),
    ensures
        hex_text(be_bytes(hex_number(d), n)) == d,
    decreases n,
{
    if n > 0 {
        let d1 = d.drop_last();
        let d2 = d1.drop_last();
        let h = d[d.len() - 2];
        let l = d[d.len() - 1];
        assert(d1.last() == h);
        assert forall|i: int| 0 <= i < d2.len() implies is_lower_hex(#[trigger] d2[i]) by {
            assert(d2[i] == d[i]);
        }
        lemma_lower_text(d2, (n - 1) as nat);
        lemma_lower_digit(h);
        lemma_lower_digit(l);
        let hv = hex_value(h)->0 as nat;
        let lv = hex_value(l)->0 as nat;
        let u = hex_number(d);
        let u2 = hex_number(d2);
        assert(d.last() == l);
        assert(u == hex_number(d1) * 16 + lv);
        assert(hex_number(d1) == u2 * 16 + hv);
        assert(u / 256 == u2 && u % 256 == hv * 16 + lv) by (nonlinear_arith)
            requires
                u == hex_number(d1) * 16 + lv,
                hex_number(d1) == u2 * 16 + hv,
                hv < 16,
                lv < 16,
        ;
        let x = (u % 256) as u8;
        assert(x / 16 == hv && x % 16 == lv) by (nonlinear_arith)
            requires
                x == hv * 16 + lv,
                hv < 16,
                lv < 16,
        ;
        let bs = be_bytes(u, n);
        assert(bs.drop_last() == be_bytes(u2, (n - 1) as nat));
        assert(bs.last() == x);
        assert(hex_text(bs) == hex_text(bs.drop_last()) + hex_pair(x));
        assert(d =~= d2 + hex_pair(x));
    }
}

proof fn lemma_lower_piece_value(p: Seq<u8>)
    requires
        p.len() == 8,
        forall|i: int| 0 <= i < p.len() ==> is_lower_hex(#[trigger] p[i]),
    ensures
        parse_hexu(p) == Some(hex_number(p) as usize),
        hex_number(p) < 0x1_0000_0000,
        hex_text(word_bytes(hex_number(p) as u32)) == p,
{
    assert forall|j: int| 0 <= j < p.len() implies p[j] != 0 by {
        assert(is_lower_hex(p[j]));
    }
    crate::parser::lemma_no_nul_from(p, 0);
    assert(until_nul(p) =~= p);
    assert forall|j: int| 0 <= j < p.len() implies (#[trigger] hex_value(p[j])) is Some by {
        lemma_lower_digit(p[j]);
    }
    lemma_lower_text(p, 4);
    crate::parser::lemma_hex_number_bound(p);
    reveal_with_fuel(crate::parser::pow16, 9);
    assert(crate::parser::pow16(8) == 0x1_0000_0000);
}

/// Register text in lowercase hex reads back as it was written: after the
/// registers are set from it, the target reports the same text.
pub proof fn lemma_registers_round_trip(t: VirtualTarget, data: Seq<u8>, after: VirtualTarget)
    requires
        t.registers_outcome(data) is Ok,
        forall|i: int| 0 <= i < data.len() ==> is_lower_hex(#[trigger] data[i]),
        t.registers_written(data, &after),
    ensures
        after.registers_text() == data,
{
    let regs = registers_from(data);
    assert forall|k: int| 0 <= k <= REGISTER_COUNT implies #[trigger] registers_hex(regs.take(k))
        == data.take(8 * k) by {
        lemma_registers_prefix(data, k);
    }
    assert(regs.take(REGISTER_COUNT as int) =~= regs);
    assert(data.take(8 * REGISTER_COUNT) =~= data);
}

proof fn lemma_registers_prefix(data: Seq<u8>, k: int)
    requires
        registers_ok(data),
        forall|i: int| 0 <= i < data.len() ==> is_lower_hex(#[trigger] data[i]),
        0 <= k <= REGISTER_COUNT,
    ensures
        registers_hex(registers_from(data).take(k)) == data.take(8 * k),
    decreases k,
{
    let regs = registers_from(data);
    if k == 0 {
        assert(regs.take(0) =~= Seq::<u32>::empty());
        assert(data.take(0) =~= Seq::<u8>::empty());
    } else {
        lemma_registers_prefix(data, k - 1);
        let p = piece(data, 8, k - 1);
        assert(p =~= data.subrange(8 * (k - 1), 8 * k));
        assert forall|i: int| 0 <= i < p.len() implies is_lower_hex(#[trigger] p[i]) by {
            assert(p[i] == data[8 * (k - 1) + i]);
        }
        lemma_lower_piece_value(p);
        assert(regs.take(k).drop_last() =~= regs.take(k - 1));
        assert(regs.take(k).last() == regs[k - 1]);
        assert(regs[k - 1] == hex_number(p) as u32);
        assert(data.take(8 * k) =~= data.take(8 * (k - 1)) + p);
    }
}


proof fn lemma_lower_byte_value(p: Seq<u8>)
    requires
        p.len() == 2,
        forall|i: int| 0 <= i < p.len() ==> is_lower_hex(#[trigger] p[i]),
    ensures
        parse_hexu(p) == Some(hex_number(p) as usize),
        hex_number(p) < 256,
        hex_pair(hex_number(p) as u8) == p,
{
    assert forall|j: int| 0 <= j < p.len() implies p[j] != 0 by {
        assert(is_lower_hex(p[j]));
    }
    crate::parser::lemma_no_nul_from(p, 0);
    assert(until_nul(p) =~= p);
    assert forall|j: int| 0 <= j < p.len() implies (#[trigger] hex_value(p[j])) is Some by {
        lemma_lower_digit(p[j]);
    }
    lemma_lower_text(p, 1);
    crate::parser::lemma_hex_number_bound(p);
    reveal_with_fuel(crate::parser::pow16, 3);
    let u = hex_number(p);
    let bs = be_bytes(u, 1);
    reveal_with_fuel(be_bytes, 2);
    assert(bs == be_bytes(u / 256, 0).push((u % 256) as u8));
    assert(u % 256 == u);
    assert(bs.drop_last() =~= Seq::<u8>::empty());
    assert(bs.last() == u as u8);
    assert(hex_text(bs) =~= hex_pair(u as u8));
}

/// Memory written from lowercase hex text reads back as that text.
pub proof fn lemma_memory_round_trip(t: VirtualTarget, start: usize, data: Seq<u8>, after: VirtualTarget)
    requires
        t.inv(),
        t.memory_outcome(start, data) is Ok,
        data.len() % 2 == 0,
        forall|i: int| 0 <= i < data.len() ==> is_lower_hex(#[trigger] data[i]),
        t.memory_written(start, data, &after),
    ensures
        after.memory_text(start, (data.len() / 2) as usize) == data,
{
    let n = data.len() / 2;
    assert(piece_count(data, 2) == n);
    let sub = after.memory@.subrange(start as int, start + n);
    assert forall|k: int| 0 <= k <= n implies #[trigger] hex_text(sub.take(k)) == data.take(2 * k) by {
        lemma_memory_prefix(t, start, data, after, k);
    }
    assert(sub.take(n as int) =~= sub);
    assert(data.take(2 * n as int) =~= data);
}

proof fn lemma_memory_prefix(t: VirtualTarget, start: usize, data: Seq<u8>, after: VirtualTarget, k: int)
    requires
        t.inv(),
        t.memory_outcome(start, data) is Ok,
        data.len() % 2 == 0,
        forall|i: int| 0 <= i < data.len() ==> is_lower_hex(#[trigger] data[i]),
        t.memory_written(start, data, &after),
        0 <= k <= data.len() / 2,
    ensures
        hex_text(after.memory@.subrange(start as int, start + data.len() / 2).take(k)) == data.take(
            2 * k,
        ),
    decreases k,
{
    let sub = after.memory@.subrange(start as int, start + data.len() / 2);
    assert(piece_count(data, 2) == data.len() / 2);
    if k == 0 {
        assert(sub.take(0) =~= Seq::<u8>::empty());
        assert(data.take(0) =~= Seq::<u8>::empty());
    } else {
        lemma_memory_prefix(t, start, data, after, k - 1);
        let p = piece(data, 2, k - 1);
        assert(p =~= data.subrange(2 * (k - 1), 2 * k));
        assert forall|i: int| 0 <= i < p.len() implies is_lower_hex(#[trigger] p[i]) by {
            assert(p[i] == data[2 * (k - 1) + i]);
        }
        lemma_lower_byte_value(p);
        assert(sub.take(k).drop_last() =~= sub.take(k - 1));
        assert(sub.take(k).last() == sub[k - 1]);
        assert(sub[k - 1] == after.memory@[start + k - 1]);
        assert(sub[k - 1] == hex_number(p) as u8);
        assert(data.take(2 * k) =~= data.take(2 * (k - 1)) + p);
    }
}

} // verus!
