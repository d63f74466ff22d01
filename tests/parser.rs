use embedgdb::basic::required::{ReadRegistersCommand, WriteRegistersCommand};
use embedgdb::command::{Acknowledge, Commands, NotImplemented, SupportedCommands};
use embedgdb::{BufferedStream, Parsed, Parser};

struct TestCommands;
impl<'a> SupportedCommands<'a> for TestCommands {}

#[test]
fn it_should_parse_hex() {
    assert_eq!(Parser::to_hex(15), Some(b'f'));
    assert_eq!(Parser::to_hex(6), Some(b'6'));
    assert_eq!(Parser::to_hex(16), None);
}

#[test]
fn it_should_parse_hex_tupel() {
    assert_eq!(Parser::to_hex_tuple(0xA7), (b'a', b'7'));
}

#[test]
fn it_should_write_hex8() {
    let mut s = BufferedStream::new();
    Parser::to_hex8(0xAF, &mut s).unwrap();
    assert_eq!(&s.buffer[..2], b"af");
}

#[test]
fn it_should_write_hex16() {
    let mut s = BufferedStream::new();
    Parser::to_hexu(&[0x12, 0xAF], &mut s).unwrap();
    assert_eq!(&s.buffer[..4], b"12af");
}

#[test]
fn it_should_write_hex32() {
    let mut s = BufferedStream::new();
    Parser::to_hexu(&[0xee, 0xdd, 0x12, 0xAF], &mut s).unwrap();
    assert_eq!(&s.buffer[..8], b"eedd12af");
}

#[test]
fn it_should_read_hex8() {
    assert_eq!(Parser::from_hexu(&[b'A', b'B']).unwrap(), 0xAB);
}

#[test]
fn it_should_read_hex8_with_padding() {
    assert_eq!(Parser::from_hexu(&[b'A', b'B', 0, 0, 0]).unwrap(), 0xAB);
}

#[test]
fn it_should_read_hex16() {
    assert_eq!(
        Parser::from_hexu(&[b'A', b'B', b'c', b'd']).unwrap(),
        0xABcd
    );
}

#[test]
fn it_should_read_hex32() {
    assert_eq!(
        Parser::from_hexu(&[b'A', b'B', b'c', b'd', b'1', b'2', b'3', b'4']).unwrap(),
        0xABcd1234
    );
}

#[test]
fn it_should_read_hex32_with_padding() {
    assert_eq!(
        Parser::from_hexu(&[b'A', b'B', b'c', b'd', b'1', b'2', b'3', 0, 0, 0, 0, 0]).unwrap(),
        0xABcd123
    );
}

#[test]
fn it_should_read_hex_be() {
    let mut s = BufferedStream::new();
    let be = 0xBFC00000 as u32;
    let mut be_bytes = be.to_be_bytes();
    be_bytes.reverse();
    Parser::to_hexu(&be_bytes, &mut s).unwrap();

    assert_eq!(s.buffer[0..8], b"0000c0bf"[..]);
    assert_eq!(
        (Parser::from_hexu(&s.buffer[0..8]).unwrap() as u32).to_le_bytes(),
        be.to_be_bytes()[..]
    );
}

#[test]
fn it_should_calculate_checksums() {
    assert_eq!(Parser::chksm(b"$vMustReplyEmpty#3a"), 0x3a);
}

#[test]
fn it_should_parse_packet() {
    let chksm = "$vMustReplyEmpty#3a".as_bytes();

    let mut parser = Parser::new(chksm);

    let parsed = parser.parse_packet(&TestCommands);

    assert_eq!(
        parsed,
        Parsed::new(
            Some(Commands::Acknowledge(Acknowledge::new())),
            Some(Commands::NotImplemented(NotImplemented::new()))
        )
    );
}

#[test]
fn it_should_parse_to_end() {
    let chksm = "$vMustReplyEmpty#3a".as_bytes();

    let mut parser = Parser::new(chksm);

    let _ = parser.parse_packet(&TestCommands);

    assert!(parser.is_at_end());
}

#[test]
fn it_should_read_name() {
    let chksm = "$g#67".as_bytes();

    let mut parser = Parser::new(chksm);

    let parsed = parser.parse_packet(&TestCommands);

    assert_eq!(
        parsed,
        Parsed::new(
            Some(Commands::Acknowledge(Acknowledge::new())),
            Some(Commands::ReadRegister(ReadRegistersCommand::new()))
        )
    );
}

#[test]
fn it_should_read_name_long() {
    let chksm = "$G64#b1".as_bytes();

    let mut parser = Parser::new(chksm);

    let parsed = parser.parse_packet(&TestCommands);

    assert_eq!(
        parsed,
        Parsed::new(
            Some(Commands::Acknowledge(Acknowledge::new())),
            Some(Commands::WriteRegister(WriteRegistersCommand::new(b"64")))
        )
    );
}

#[test]
fn it_should_parse_long_packet() {
    let packet = "$qSupported:multiprocess+;swbreak+;hwbreak+;qRelocInsn+;fork-events+;vfork-events+;exec-events+;vContSupported+;QThreadEvents+;no-resumed+;xmlRegisters=i386#6a".as_bytes();
    let mut parser = Parser::new(packet);

    let parsed = parser.parse_packet(&TestCommands);

    assert_eq!(
        parsed,
        Parsed::new(
            Some(Commands::Acknowledge(Acknowledge::new())),
            Some(Commands::NotImplemented(NotImplemented::new()))
        )
    );
}

#[test]
fn it_should_parse_to_end_long_packet() {
    let packet = "$qSupported:multiprocess+;swbreak+;hwbreak+;qRelocInsn+;fork-events+;vfork-events+;exec-events+;vContSupported+;QThreadEvents+;no-resumed+;xmlRegisters=i386#6a".as_bytes();
    let mut parser = Parser::new(packet);

    let _ = parser.parse_packet(&TestCommands);
    assert!(parser.is_at_end());
}

#[test]
fn it_should_parse_tokens() {
    let packet = b"token1;token2,token3";

    let mut parser = Parser::new(packet);

    let t1 = parser.next_token();
    assert_eq!(t1, Some(&b"token1"[..]));
    assert!(!parser.is_at_end());

    let t2 = parser.next_token();
    assert!(!parser.is_at_end());
    assert_eq!(t2, Some(&b"token2"[..]));

    let t3 = parser.next_token();
    assert!(parser.is_at_end());
    assert_eq!(t3, Some(&b"token3"[..]));

    let t4 = parser.next_token();
    assert!(parser.is_at_end());
    assert_eq!(t4, None);
}
