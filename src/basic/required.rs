use crate::command::{
    error_text, escape_all, frame, lemma_close_frame, ok_text, Command, ResponseWriter,
};
use crate::wire::PACKET_START;
use crate::error::Errors;
use crate::parser::{parse_hexu, step, token_end, Parser};
use crate::stream::Stream;
use crate::target::Target;
use vstd::prelude::*;

verus! {

/// Where the `k`-th token of an argument payload starts; tokens are read one
/// after the other, each with the terminator that follows it.
pub open spec fn token_start(s: Seq<u8>, k: nat) -> int
    decreases k,
{
    if k == 0 {
        0
    } else {
        step(s, token_end(s, token_start(s, (k - 1) as nat)))
    }
}

/// The `k`-th token of an argument payload, if it has that many.
pub open spec fn token(s: Seq<u8>, k: nat) -> Option<Seq<u8>> {
    if token_start(s, k) < s.len() {
        Some(s.subrange(token_start(s, k), token_end(s, token_start(s, k))))
    } else {
        None
    }
}

/// The address and size of a memory read, `addr,size` in hex.
pub open spec fn read_args(s: Seq<u8>) -> Result<(usize, usize), Errors> {
    if token(s, 0) is None || token(s, 1) is None {
        Err(Errors::InsufficientArguments)
    } else if parse_hexu(token(s, 0)->0) is None || parse_hexu(token(s, 1)->0) is None {
        Err(Errors::BadNumber)
    } else {
        Ok((parse_hexu(token(s, 0)->0)->0, parse_hexu(token(s, 1)->0)->0))
    }
}

/// The address and hex data of a memory write, `addr,size:data`, where
/// `data` must hold `size` bytes as two digits each.
pub open spec fn write_args(s: Seq<u8>) -> Result<(usize, Seq<u8>), Errors> {
    if token(s, 0) is None || token(s, 1) is None || token(s, 2) is None {
        Err(Errors::InsufficientArguments)
    } else if parse_hexu(token(s, 0)->0) is None || parse_hexu(token(s, 1)->0) is None {
        Err(Errors::BadNumber)
    } else if token(s, 2)->0.len() / 2 != parse_hexu(token(s, 1)->0)->0 {
        Err(Errors::LengthMismatch)
    } else {
        Ok((parse_hexu(token(s, 0)->0)->0, token(s, 2)->0))
    }
}

proof fn lemma_token_start_bounds(s: Seq<u8>, k: nat)
    ensures
        0 <= token_start(s, k) <= s.len(),
    decreases k,
{
    if k > 0 {
        lemma_token_start_bounds(s, (k - 1) as nat);
        crate::parser::lemma_token_end_bounds(s, token_start(s, (k - 1) as nat));
    }
}

/// `?`: reports why the target halted.
#[derive(Debug, PartialEq)]
pub struct ReasonCommand<'a> {
    pub state: ResponseWriter<'a>,
}

impl<'a> ReasonCommand<'a> {
    pub fn new() -> (r: Self)
        ensures
            r.state.fields@.len() == 0,
    {
        Self { state: ResponseWriter::new(&[]) }
    }
}

impl<'a> Default for ReasonCommand<'a> {
    fn default() -> (r: Self)
        ensures
            r.state.fields@.len() == 0,
    {
        Self::new()
    }
}

impl<'a> Command for ReasonCommand<'a> {
    /// Replies with the target's halt reason, escaped, in a frame; returns the
    /// size of the reply.
    fn response<S: Stream, T: Target>(&mut self, stream: &mut S, ctx: &mut T) -> (r: Result<
        usize,
        Errors,
    >)
        ensures
            *final(ctx) == *old(ctx),
            old(stream).capacity() >= escape_all(old(ctx).reason_text()).len() + 4 ==> r == Ok::<
                usize,
                Errors,
            >((escape_all(old(ctx).reason_text()).len() + 4) as usize) && final(stream).cursor()
                == escape_all(old(ctx).reason_text()).len() + 4,
            r matches Err(e) ==> e == Errors::MemoryFilledInterupt,
            r matches Ok(n) ==> n == final(stream).cursor() && final(stream).written() == frame(
                escape_all(old(ctx).reason_text()),
            ),
    {
        stream.reset();
        self.state.start(stream)?;
        let reason = ctx.reason();
        self.state.write_all(stream, reason)?;
        let ghost w = stream.written();
        self.state.end(stream)?;
        proof {
            assert(w =~= seq![PACKET_START] + escape_all(reason@));
            lemma_close_frame(escape_all(reason@));
        }
        Ok(stream.pos())
    }
}

/// `g`: reads all registers.
#[derive(Debug, PartialEq)]
pub struct ReadRegistersCommand<'a> {
    pub state: ResponseWriter<'a>,
}

impl<'a> ReadRegistersCommand<'a> {
    pub fn new() -> (r: Self)
        ensures
            r.state.fields@.len() == 0,
    {
        Self { state: ResponseWriter::new(&[]) }
    }
}

impl<'a> Default for ReadRegistersCommand<'a> {
    fn default() -> (r: Self)
        ensures
            r.state.fields@.len() == 0,
    {
        Self::new()
    }
}

impl<'a> Command for ReadRegistersCommand<'a> {
    /// Replies with the target's register text in a frame.
    fn response<S: Stream, T: Target>(&mut self, stream: &mut S, ctx: &mut T) -> (r: Result<
        usize,
        Errors,
    >)
        ensures
            *final(ctx) == *old(ctx),
            old(stream).capacity() >= old(ctx).registers_text().len() + 4 ==> r == Ok::<
                usize,
                Errors,
            >((old(ctx).registers_text().len() + 4) as usize) && final(stream).cursor() == old(ctx).registers_text().len() + 4,
            r matches Err(e) ==> e == Errors::MemoryFilledInterupt,
            r matches Ok(n) ==> n == final(stream).cursor() && final(stream).written() == frame(
                old(ctx).registers_text(),
            ),
    {
        stream.reset();
        self.state.start(stream)?;
        ctx.rd_registers(stream)?;
        let ghost w = stream.written();
        self.state.end(stream)?;
        proof {
            assert(w =~= seq![PACKET_START] + ctx.registers_text());
            lemma_close_frame(ctx.registers_text());
        }
        Ok(stream.pos())
    }
}

/// `G`: writes all registers from the hex text in its arguments.
#[derive(Debug, PartialEq)]
pub struct WriteRegistersCommand<'a> {
    pub state: ResponseWriter<'a>,
}

impl<'a> WriteRegistersCommand<'a> {
    pub fn new(args: &'a [u8]) -> (r: Self)
        ensures
            r.state.fields == args,
    {
        Self { state: ResponseWriter::new(args) }
    }
}

/// The reply to a register write: `OK` if the target took it, else `E00`.
pub open spec fn status_text(accepted: bool) -> Seq<u8> {
    if accepted {
        ok_text()
    } else {
        error_text()
    }
}

impl<'a> Command for WriteRegistersCommand<'a> {
    /// Hands the register text to the target and replies `OK`, or `E00` if
    /// the target refused it.
    fn response<S: Stream, T: Target>(&mut self, stream: &mut S, ctx: &mut T) -> (r: Result<
        usize,
        Errors,
    >)
        ensures
            old(stream).capacity() >= 7 ==> r is Ok,
            old(stream).capacity() >= status_text(
                old(ctx).registers_outcome(old(self).state.fields@) is Ok,
            ).len() + 4 ==> r == Ok::<usize, Errors>(
                (status_text(old(ctx).registers_outcome(old(self).state.fields@) is Ok).len()
                    + 4) as usize,
            ) && final(stream).cursor() == status_text(
                old(ctx).registers_outcome(old(self).state.fields@) is Ok,
            ).len() + 4,
            r matches Err(e) ==> e == Errors::MemoryFilledInterupt,
            r matches Ok(n) ==> n == final(stream).cursor() && final(stream).written() == frame(
                status_text(old(ctx).registers_outcome(old(self).state.fields@) is Ok),
            ),
            r is Ok && old(ctx).registers_outcome(old(self).state.fields@) is Ok ==> old(ctx).registers_written(old(self).state.fields@, final(ctx)),
    {
        stream.reset();
        self.state.start(stream)?;
        match ctx.wr_registers(self.state.fields) {
            Ok(_) => {
                self.state.ok(stream)?;
            },
            Err(err) => {
                self.state.error(stream, err)?;
            },
        };
        let ghost text = status_text(old(ctx).registers_outcome(self.state.fields@) is Ok);
        let ghost w = stream.written();
        assert(w =~= seq![PACKET_START] + text);
        self.state.end(stream)?;
        proof {
            lemma_close_frame(text);
        }
        Ok(stream.pos())
    }
}

/// `m addr,size`: reads memory.
#[derive(Debug, PartialEq)]
pub struct ReadMemoryCommand<'a> {
    pub state: ResponseWriter<'a>,
}

impl<'a> ReadMemoryCommand<'a> {
    pub fn new(args: &'a [u8]) -> (r: Self)
        ensures
            r.state.fields == args,
    {
        Self { state: ResponseWriter::new(args) }
    }
}

impl<'a> Command for ReadMemoryCommand<'a> {
    /// Reads `addr` and `size` from the arguments and replies with the
    /// target's text of that memory in a frame.
    fn response<S: Stream, T: Target>(&mut self, stream: &mut S, ctx: &mut T) -> (r: Result<
        usize,
        Errors,
    >)
        ensures
            *final(ctx) == *old(ctx),
            read_args(old(self).state.fields@) is Err && old(stream).capacity() >= 1 ==> r == Err::<
                usize,
                Errors,
            >(read_args(old(self).state.fields@)->Err_0),
            read_args(old(self).state.fields@) matches Ok((a, z)) ==> (old(stream).capacity()
                >= old(ctx).memory_text(a, z).len() + 4 ==> r == Ok::<usize, Errors>(
                (old(ctx).memory_text(a, z).len() + 4) as usize,
            ) && final(stream).cursor() == old(ctx).memory_text(a, z).len() + 4),
            read_args(old(self).state.fields@) is Ok ==> (r matches Err(e) ==> e
                == Errors::MemoryFilledInterupt),
            r matches Ok(n) ==> read_args(old(self).state.fields@) is Ok && n == final(stream).cursor() && final(stream).written() == frame(
                old(ctx).memory_text(
                    read_args(old(self).state.fields@)->Ok_0.0,
                    read_args(old(self).state.fields@)->Ok_0.1,
                ),
            ),
    {
        stream.reset();
        self.state.start(stream)?;
        let mut parser = Parser::new(self.state.fields);
        let ghost s = self.state.fields@;
        proof {
            lemma_token_start_bounds(s, 0);
            lemma_token_start_bounds(s, 1);
        }
        let addr = parser.next_token();
        assert((parser.position() as int) == token_start(s, 1));
        let size = parser.next_token();
        assert(addr matches Some(a) ==> a@ == token(s, 0)->0);
        assert(size matches Some(z) ==> z@ == token(s, 1)->0);
        assert(addr is None ==> token(s, 0) is None);
        assert(size is None ==> token(s, 1) is None);
        match (addr, size) {
            (Some(addr), Some(size)) => {
                match (Parser::from_hexu(addr), Parser::from_hexu(size)) {
                    (Some(addr), Some(size)) => {
                        ctx.rd_memory(addr, size, stream)?;
                        let ghost w = stream.written();
                        self.state.end(stream)?;
                        proof {
                            assert(w =~= seq![PACKET_START] + ctx.memory_text(addr, size));
                            lemma_close_frame(ctx.memory_text(addr, size));
                        }
                        Ok(stream.pos())
                    },
                    _ => Err(Errors::BadNumber),
                }
            },
            _ => Err(Errors::InsufficientArguments),
        }
    }
}

/// `M addr,size:data`: writes memory.
#[derive(Debug, PartialEq)]
pub struct WriteMemoryCommand<'a> {
    pub state: ResponseWriter<'a>,
}

impl<'a> WriteMemoryCommand<'a> {
    pub fn new(args: &'a [u8]) -> (r: Self)
        ensures
            r.state.fields == args,
    {
        Self { state: ResponseWriter::new(args) }
    }
}

impl<'a> Command for WriteMemoryCommand<'a> {
    /// Reads `addr`, `size` and the data from the arguments, checks that the
    /// data holds `size` bytes, hands it to the target and replies `OK`. An
    /// error of the target is returned as it is.
    fn response<S: Stream, T: Target>(&mut self, stream: &mut S, ctx: &mut T) -> (r: Result<
        usize,
        Errors,
    >)
        ensures
            write_args(old(self).state.fields@) is Err && old(stream).capacity() >= 1 ==> r
                == Err::<usize, Errors>(write_args(old(self).state.fields@)->Err_0),
            write_args(old(self).state.fields@) is Err ==> *final(ctx) == *old(ctx),
            write_args(old(self).state.fields@) matches Ok((a, d)) ==> (old(ctx).memory_outcome(
                a,
                d,
            ) is Err && old(stream).capacity() >= 1 ==> r == Err::<usize, Errors>(
                old(ctx).memory_outcome(a, d)->Err_0,
            )),
            write_args(old(self).state.fields@) matches Ok((a, d)) ==> (old(ctx).memory_outcome(
                a,
                d,
            ) is Ok && old(stream).capacity() >= 6 ==> r == Ok::<usize, Errors>(6)
                && final(stream).cursor() == 6),
            write_args(old(self).state.fields@) matches Ok((a, d)) ==> (r is Ok ==> old(ctx).memory_written(a, d, final(ctx))),
            r matches Ok(n) ==> write_args(old(self).state.fields@) is Ok && n == final(stream).cursor() && final(stream).written() == frame(ok_text()),
    {
        stream.reset();
        self.state.start(stream)?;
        let mut parser = Parser::new(self.state.fields);
        let ghost s = self.state.fields@;
        proof {
            lemma_token_start_bounds(s, 0);
            lemma_token_start_bounds(s, 1);
            lemma_token_start_bounds(s, 2);
        }
        let addr = parser.next_token();
        assert((parser.position() as int) == token_start(s, 1));
        let size = parser.next_token();
        assert((parser.position() as int) == token_start(s, 2));
        let bytes = parser.next_token();
        assert(addr matches Some(a) ==> a@ == token(s, 0)->0);
        assert(size matches Some(z) ==> z@ == token(s, 1)->0);
        assert(bytes matches Some(b) ==> b@ == token(s, 2)->0);
        assert(addr is None ==> token(s, 0) is None);
        assert(size is None ==> token(s, 1) is None);
        assert(bytes is None ==> token(s, 2) is None);
        match (addr, size, bytes) {
            (Some(addr), Some(size), Some(bytes)) => {
                match (Parser::from_hexu(addr), Parser::from_hexu(size)) {
                    (Some(addr), Some(size)) => {
                        if bytes.len() / 2 != size {
                            Err(Errors::LengthMismatch)
                        } else {
                            ctx.wr_memory(addr, bytes)?;
                            self.state.ok(stream)?;
                            let ghost w = stream.written();
                            assert(w =~= seq![PACKET_START] + ok_text());
                            self.state.end(stream)?;
                            proof {
                                lemma_close_frame(ok_text());
                            }
                            Ok(stream.pos())
                        }
                    },
                    _ => Err(Errors::BadNumber),
                }
            },
            _ => Err(Errors::InsufficientArguments),
        }
    }
}

} // verus!
