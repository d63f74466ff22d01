use embedgdb::command::{Command, SupportedCommands};
use embedgdb::{BufferedStream, Errors, Parsed, Parser, Stream, VirtualTarget};

struct DebugCommands;
impl<'a> SupportedCommands<'a> for DebugCommands {}

fn exec_packet(
    result: &mut Parsed,
    rstream: &mut BufferedStream,
    target: &mut VirtualTarget,
) -> Result<usize, Errors> {
    assert_ne!(result.response, None);
    assert_ne!(result.command, None);
    let mut size = 0;
    if let Some(response) = &mut result.response {
        size += response.response(rstream, target)?;
    }

    if let Some(command) = &mut result.command {
        size += command.response(rstream, target)?;
    }

    return Ok(size);
}

#[test]
fn it_should_execute_read_register() {
    let mut target = VirtualTarget::new();
    let mut parser = Parser::new(b"$g#67");
    let mut rstream = BufferedStream::new();

    let mut result = parser.parse_packet(&DebugCommands);
    let size = exec_packet(&mut result, &mut rstream, &mut target).unwrap();

    assert_eq!(size, 309);
    assert_eq!(rstream.buffer[..rstream.pos()],
        b"$010000000100000001000000010000000100000001000000010000000100000001000000010000000100000001000000010000000100000001000000010000000100000001000000010000000100000001000000010000000100000001000000010000000100000001000000010000000100000001000000010000000100000001000000010000000100000001000000010000000000c0bf#c0"[..]);
}

#[test]
fn it_should_execute_wr_register() {
    let mut target = VirtualTarget::new();
    let mut parser = Parser::new(b"$Gd1bccabf0100000001000000010000000100000001000000010000000100000001000000010000000100000001000000010000000100000001000000010000000100000001000000010000000100000001000000010000000100000001000000010000000100000001000000010000000100000001000000010000000100000001000000010000000100000001000000010000000000c0bf#6c");
    let mut rstream = BufferedStream::new();

    let mut result = parser.parse_packet(&DebugCommands);
    let size = exec_packet(&mut result, &mut rstream, &mut target).unwrap();

    assert_eq!(size, 7);
    assert_eq!(rstream.buffer[..rstream.pos()], b"$OK#9a"[..]);
}

#[test]
fn it_should_read_memory() {
    let mut target = VirtualTarget::new();
    let mut parser = Parser::new(b"$m64,4#37");
    let mut rstream = BufferedStream::new();

    let mut result = parser.parse_packet(&DebugCommands);
    let size = exec_packet(&mut result, &mut rstream, &mut target).unwrap();

    assert_eq!(size, 13);
    assert_eq!(rstream.buffer[..rstream.pos()], b"$00000000#80"[..]);
}

#[test]
fn it_should_read_partial_memory() {
    let mut target = VirtualTarget::new();
    let mut parser = Parser::new(b"$m1fe,4#c9");
    let mut rstream = BufferedStream::new();

    let mut result = parser.parse_packet(&DebugCommands);
    let size = exec_packet(&mut result, &mut rstream, &mut target).unwrap();

    assert_eq!(size, 9);
    assert_eq!(rstream.buffer[..rstream.pos()], b"$0000#c0"[..]);
}

#[test]
fn it_should_reject_insufficient_args_read_memory() {
    let mut target = VirtualTarget::new();
    let mut parser = Parser::new(b"$m64#d7");
    let mut rstream = BufferedStream::new();

    let mut result = parser.parse_packet(&DebugCommands);
    let err = exec_packet(&mut result, &mut rstream, &mut target).unwrap_err();
    assert_eq!(err, Errors::InsufficientArguments);
}

#[test]
fn it_should_write_memory() {
    let mut target = VirtualTarget::new();
    let mut parser = Parser::new(b"$M64,4:ab000000#34");
    let mut rstream = BufferedStream::new();

    let mut result = parser.parse_packet(&DebugCommands);
    let size = exec_packet(&mut result, &mut rstream, &mut target).unwrap();

    assert_eq!(size, 7);
    assert_eq!(rstream.buffer[..rstream.pos()], b"$OK#9a"[..]);
}

#[test]
fn it_should_reject_size_mismatch_write_memory() {
    let mut target = VirtualTarget::new();
    let mut parser = Parser::new(b"$M64,3:ab000000#33");
    let mut rstream = BufferedStream::new();

    let mut result = parser.parse_packet(&DebugCommands);
    let error = exec_packet(&mut result, &mut rstream, &mut target).unwrap_err();

    assert_eq!(error, Errors::LengthMismatch);
}

#[test]
fn it_should_reject_insufficient_args_write_memory() {
    let mut target = VirtualTarget::new();
    let mut parser = Parser::new(b"$M64,3#16");
    let mut rstream = BufferedStream::new();

    let mut result = parser.parse_packet(&DebugCommands);
    let error = exec_packet(&mut result, &mut rstream, &mut target).unwrap_err();

    assert_eq!(error, Errors::InsufficientArguments);
}
