use embedgdb::command::{Command, Commands, ResponseWriter, SupportedCommands};
use embedgdb::{BufferedStream, Drain, Errors, Framing, Parser, Stream, Target, VirtualTarget};

struct Required;
impl<'a> SupportedCommands<'a> for Required {}

/// Collects what a full stream hands on.
struct Collect {
    sent: Vec<u8>,
}

impl Drain for Collect {
    fn drain(&mut self, data: &[u8]) -> bool {
        self.sent.extend_from_slice(data);
        true
    }
}

/// Frames a payload the way a debugger does.
fn packet(payload: &[u8]) -> Vec<u8> {
    let mut p = vec![b'$'];
    p.extend_from_slice(payload);
    p.push(b'#');
    let sum = payload.iter().fold(0u32, |s, b| s + *b as u32) % 256;
    p.extend_from_slice(format!("{:02x}", sum).as_bytes());
    p
}

/// Parses one packet and returns the bytes of its acknowledgement, the bytes
/// of its command's reply (or the error), and what the parser made of it.
fn run(input: &[u8], target: &mut VirtualTarget) -> (Vec<u8>, Result<Vec<u8>, Errors>) {
    let mut parser = Parser::new(input);
    let mut parsed = parser.parse_packet(&Required);
    let mut ack = Vec::new();
    if let Some(response) = &mut parsed.response {
        let mut s = BufferedStream::new();
        response.response(&mut s, target).unwrap();
        ack.extend_from_slice(&s.buffer[..s.pos()]);
    }
    let reply = match &mut parsed.command {
        Some(command) => {
            let mut s = BufferedStream::new();
            command
                .response(&mut s, target)
                .map(|_| s.buffer[..s.pos()].to_vec())
        }
        None => Ok(Vec::new()),
    };
    (ack, reply)
}

fn unescape(w: &[u8]) -> Vec<u8> {
    let mut out = Vec::new();
    let mut i = 0;
    while i < w.len() {
        if w[i] == b'}' && i + 1 < w.len() {
            out.push(w[i + 1] ^ 0x20);
            i += 2;
        } else {
            out.push(w[i]);
            i += 1;
        }
    }
    out
}

#[test]
fn nibbles_round_trip_for_every_byte() {
    for b in 0..=255u8 {
        let digit = Parser::to_hex(b % 16).unwrap();
        assert_eq!(Parser::from_hex(digit), Some(b % 16));
    }
    assert_eq!(Parser::from_hex(b'F'), Some(15));
    assert_eq!(Parser::from_hex(b'g'), None);
    assert_eq!(Parser::to_hex(200), None);
}

#[test]
fn hex_text_reads_back_as_its_number() {
    let cases: [(u64, usize); 5] = [
        (0, 1),
        (0xab, 1),
        (0xdead_beef, 4),
        (0x0001_0203, 4),
        (u64::MAX, 8),
    ];
    for (u, n) in cases {
        let bytes = &u.to_be_bytes()[8 - n..];
        let mut s = BufferedStream::new();
        Parser::to_hexu(bytes, &mut s).unwrap();
        assert_eq!(s.pos(), 2 * n);
        assert_eq!(Parser::from_hexu(&s.buffer[..s.pos()]), Some(u as usize));
    }
}

#[test]
fn hex_fields_edge_cases() {
    assert_eq!(Parser::from_hexu(&[]), Some(0));
    assert_eq!(Parser::from_hexu(&[0, b'1']), Some(0));
    assert_eq!(Parser::from_hexu(b"12x4"), None);
    assert_eq!(Parser::from_hexu(b"ffffffffffffffff"), Some(usize::MAX));
    assert_eq!(Parser::from_hexu(b"00000000000000001"), Some(1));
    assert_eq!(Parser::from_hexu(b"10000000000000000"), None);
    assert_eq!(Parser::to_hex_tuple(0x05), (b'0', b'5'));
    assert_eq!(Parser::is_hex_digit(b'C'), true);
    assert_eq!(Parser::is_hex_digit(b'G'), false);
}

#[test]
fn escaping_is_applied_once_and_undone() {
    let payload = b"a$b#c}d*e";
    let mut s = BufferedStream::new();
    let mut w = ResponseWriter::new(&[]);
    let n = w.write_all(&mut s, payload).unwrap();
    let out = &s.buffer[..s.pos()];
    assert_eq!(n, payload.len() + 4);
    assert_eq!(out, b"a}\x04b}\x03c}]d}\x0ae");
    assert!(!out.contains(&b'$') && !out.contains(&b'#') && !out.contains(&b'*'));
    assert_eq!(unescape(out), payload.to_vec());
    assert_eq!(ResponseWriter::escape(b'}'), b']');
}

#[test]
fn bad_introduction_is_refused() {
    for input in [&b"x"[..], &b""[..], &b"g#67"[..]] {
        let mut parser = Parser::new(input);
        assert_eq!(parser.parse_frame(), Framing::Rejected(Errors::UnexpectedIntroduction));
    }
    let mut parser = Parser::new(b"+x");
    assert_eq!(parser.parse_frame(), Framing::AcknowledgeLast);
    assert_eq!(parser.parse_frame(), Framing::Rejected(Errors::UnexpectedIntroduction));
}

#[test]
fn checksum_off_by_one_is_refused() {
    for input in [&b"$g#68"[..], &b"$g#66"[..], &b"$vMustReplyEmpty#3b"[..]] {
        let mut parser = Parser::new(input);
        let parsed = parser.parse_packet(&Required);
        assert_eq!(parsed.command, None);
        match parsed.response {
            Some(Commands::Retransmit(r)) => assert_eq!(r.error, Errors::InvalidChecksum),
            other => panic!("unexpected {:?}", other),
        }
    }
}

#[test]
fn uppercase_checksum_is_accepted() {
    let mut parser = Parser::new(b"$vMustReplyEmpty#3A");
    assert_eq!(
        parser.parse_frame(),
        Framing::Packet { name: b"vMustReplyEmpty", args: None }
    );
}

#[test]
fn unterminated_packets_are_refused() {
    for input in [&b"$"[..], &b"$g"[..], &b"$vFoo"[..], &b"$m64,4"[..]] {
        let mut parser = Parser::new(input);
        assert_eq!(parser.parse_frame(), Framing::Rejected(Errors::NotTerminated));
        assert!(parser.is_at_end());
    }
}

#[test]
fn frames_report_name_and_arguments() {
    let mut parser = Parser::new(b"$m64,4#37");
    assert_eq!(parser.parse_frame(), Framing::Packet { name: b"m", args: Some(b"64,4") });
    let mut parser = Parser::new(b"$qSupported:xyz#00");
    assert!(matches!(parser.parse_frame(), Framing::Rejected(Errors::InvalidChecksum)));
    let p = packet(b"qSupported:xyz");
    let mut parser = Parser::new(&p);
    assert_eq!(parser.parse_frame(), Framing::Packet { name: b"qSupported", args: Some(b"xyz") });
}

#[test]
fn drained_stream_keeps_its_checksum() {
    let mut s = BufferedStream::with_drain(Collect { sent: Vec::new() });
    let mut w = ResponseWriter::new(&[]);
    let data: Vec<u8> = (0..700u32).map(|i| b'a' + (i % 26) as u8).collect();
    w.write_all(&mut s, &data).unwrap();
    let expected = data.iter().fold(0u32, |a, b| a.wrapping_add(*b as u32));
    assert_eq!(s.chksm(), expected);
    assert_eq!(s.pos(), 700 - 512);

    let mut whole = BufferedStream::with_drain(Collect { sent: Vec::new() });
    let (first, rest) = data.split_at(300);
    w.write_all(&mut whole, first).unwrap();
    w.write_all(&mut whole, rest).unwrap();
    assert_eq!(whole.chksm(), s.chksm());
}

#[test]
fn checksum_skips_framing_bytes() {
    let mut s = BufferedStream::new();
    s.write(b'$').unwrap();
    s.write(b'a').unwrap();
    s.write(b'#').unwrap();
    assert_eq!(s.chksm(), b'a' as u32);
    s.reset();
    assert_eq!(s.chksm(), 0);
    assert_eq!(s.pos(), 0);
}

#[test]
fn must_reply_empty_full_exchange() {
    let mut target = VirtualTarget::new();
    let (ack, reply) = run(b"$vMustReplyEmpty#3a", &mut target);
    let mut all = ack;
    all.extend_from_slice(&reply.unwrap());
    assert_eq!(all, b"+$#00".to_vec());
}

#[test]
fn register_reply_carries_its_checksum() {
    let mut target = VirtualTarget::new();
    let (_, reply) = run(b"$g#67", &mut target);
    let reply = reply.unwrap();
    let payload = &reply[1..reply.len() - 3];
    assert_eq!(payload.len(), 304);
    let sum = payload.iter().fold(0u32, |s, b| s + *b as u32) % 256;
    assert_eq!(&reply[reply.len() - 2..], format!("{:02x}", sum).as_bytes());
    assert_eq!(target.endianess(), embedgdb::Endianness::Big);
}

#[test]
fn written_registers_read_back() {
    let mut target = VirtualTarget::new();
    let mut text = Vec::new();
    for i in 0..38u32 {
        text.extend_from_slice(format!("{:08x}", i * 0x01010101).as_bytes());
    }
    let mut payload = vec![b'G'];
    payload.extend_from_slice(&text);
    let (_, reply) = run(&packet(&payload), &mut target);
    assert_eq!(reply.unwrap(), b"$OK#9a".to_vec());
    let (_, reply) = run(b"$g#67", &mut target);
    assert_eq!(&reply.unwrap()[1..305], &text[..]);
}

#[test]
fn bad_register_text_gets_error_reply() {
    let mut target = VirtualTarget::new();
    let (_, reply) = run(&packet(b"G00"), &mut target);
    assert_eq!(reply.unwrap(), b"$E00#a5".to_vec());
    let mut bad = vec![b'G'];
    bad.extend_from_slice(&[b'z'; 304]);
    let (_, reply) = run(&packet(&bad), &mut target);
    assert_eq!(reply.unwrap(), b"$E00#a5".to_vec());
}

#[test]
fn written_memory_reads_back() {
    let mut target = VirtualTarget::new();
    let (_, reply) = run(b"$M64,4:ab000000#34", &mut target);
    assert_eq!(reply.unwrap(), b"$OK#9a".to_vec());
    let (_, reply) = run(b"$m64,4#37", &mut target);
    assert_eq!(reply.unwrap(), b"$ab000000#e3".to_vec());
}

#[test]
fn memory_errors() {
    let mut target = VirtualTarget::new();
    let (_, reply) = run(&packet(b"mzz,4"), &mut target);
    assert_eq!(reply, Err(Errors::BadNumber));
    let (_, reply) = run(&packet(b"m"), &mut target);
    assert_eq!(reply, Err(Errors::InsufficientArguments));
    let (_, reply) = run(&packet(b"M1fe,4:ab000000"), &mut target);
    assert_eq!(reply, Err(Errors::AddressOutOfRange));
    let (_, reply) = run(&packet(b"M10,2:zz00"), &mut target);
    assert_eq!(reply, Err(Errors::CommandError));
    let (_, reply) = run(&packet(b"M10,q:ab"), &mut target);
    assert_eq!(reply, Err(Errors::BadNumber));
}

#[test]
fn write_at_end_of_memory_fits() {
    let mut target = VirtualTarget::new();
    let (_, reply) = run(&packet(b"M1fe,2:abcd"), &mut target);
    assert_eq!(reply.unwrap(), b"$OK#9a".to_vec());
    let (_, reply) = run(&packet(b"m1fe,2"), &mut target);
    assert_eq!(reply.unwrap(), b"$abcd#8a".to_vec());
    let (_, reply) = run(&packet(b"M1ff,2:abcd"), &mut target);
    assert_eq!(reply, Err(Errors::AddressOutOfRange));
    let (_, reply) = run(&packet(b"M200,0:"), &mut target);
    assert_eq!(reply, Err(Errors::InsufficientArguments));
}

#[test]
fn read_beyond_memory_is_empty() {
    let mut target = VirtualTarget::new();
    let (_, reply) = run(&packet(b"m400,4"), &mut target);
    assert_eq!(reply.unwrap(), b"$#00".to_vec());
    let (_, reply) = run(&packet(b"m1ff,ffffffffffffffff"), &mut target);
    assert_eq!(reply.unwrap(), b"$00#60".to_vec());
}

#[test]
fn halt_reason_is_framed() {
    let mut target = VirtualTarget::new();
    let mut parser = Parser::new(b"$?#3f");
    let mut parsed = parser.parse_packet(&Required);
    let mut s = BufferedStream::new();
    let n = parsed.command.as_mut().unwrap().response(&mut s, &mut target).unwrap();
    assert_eq!(n, 7);
    assert_eq!(&s.buffer[..s.pos()], b"$S05#b8");
    assert_eq!(target.reason(), b"S05");
}

#[test]
fn negative_ack_asks_for_last_reply() {
    let mut target = VirtualTarget::new();
    let mut parser = Parser::new(b"-");
    let mut parsed = parser.parse_packet(&Required);
    assert_eq!(parsed.response, Some(Commands::RetransmitLast));
    assert_eq!(parsed.command, None);
    let mut s = BufferedStream::new();
    let n = parsed.response.as_mut().unwrap().response(&mut s, &mut target).unwrap();
    assert_eq!(n, 0);
    assert_eq!(s.pos(), 0);
}

#[test]
fn retransmit_request_is_a_bare_minus() {
    let mut target = VirtualTarget::new();
    let mut parser = Parser::new(b"$g#00");
    let mut parsed = parser.parse_packet(&Required);
    let mut s = BufferedStream::new();
    let n = parsed.response.as_mut().unwrap().response(&mut s, &mut target).unwrap();
    assert_eq!(n, 1);
    assert_eq!(&s.buffer[..s.pos()], b"-");
}

#[test]
fn writer_helpers() {
    let mut s = BufferedStream::new();
    let mut w = ResponseWriter::new(&[]);
    assert_eq!(w.start(&mut s), Ok(1));
    assert_eq!(w.ok(&mut s), Ok(2));
    assert_eq!(w.end(&mut s), Ok(3));
    assert_eq!(&s.buffer[..s.pos()], b"$OK#9a");
    s.reset();
    w.start(&mut s).unwrap();
    assert_eq!(w.error(&mut s, Errors::CommandError), Ok(3));
    w.end(&mut s).unwrap();
    assert_eq!(&s.buffer[..s.pos()], b"$E00#a5");
    s.reset();
    assert_eq!(w.write_hex(&mut s, 0x3c), Ok(2));
    assert_eq!(w.write_force(&mut s, b'#'), Ok(1));
    assert_eq!(w.write_escape(&mut s, b'*'), Ok(2));
    assert_eq!(&s.buffer[..s.pos()], b"3c#}\x0a");
}

#[test]
fn parser_cursor_primitives() {
    let mut p = Parser::new(b"ab");
    assert_eq!(p.peek(), b'a');
    assert_eq!(p.next(), b'b');
    assert!(!p.is_match(b'x'));
    assert!(p.is_match(b'a'));
    assert_eq!(p.advance(), 0);
    assert!(p.is_at_end());
    assert_eq!(p.advance(), 0);
    assert_eq!(p.peek(), 0);
    assert_eq!(p.next(), 0);
    let mut p = Parser::new(b"g,1");
    assert_eq!(p.parse_name(), b"g");
    assert_eq!(p.peek(), b'g');
    p.advance();
    assert!(p.is_term());
    let mut p = Parser::new(b"a,b#cd");
    assert_eq!(p.parse_until_end(), b"a,b");
    assert!(p.verify_chksm() == false);
}
