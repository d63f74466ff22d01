use embedgdb::command::{Command, Commands, NotImplemented, ResponseWriter};
use embedgdb::{BufferedStream, Errors, Stream, Target};

#[derive(Debug, Clone, PartialEq)]
struct TestCtx;
impl Target for TestCtx {
    fn reason(&self) -> &[u8] {
        b"S05"
    }
    fn rd_registers<S: Stream>(&self, _stream: &mut S) -> Result<usize, Errors> {
        Ok(0)
    }
    fn wr_registers(&mut self, _data: &[u8]) -> Result<usize, Errors> {
        Ok(0)
    }
    fn rd_memory<S: Stream>(&self, _start: usize, _size: usize, _stream: &mut S) -> Result<usize, Errors> {
        Ok(0)
    }
    fn wr_memory(&mut self, _start: usize, _data: &[u8]) -> Result<usize, Errors> {
        Ok(0)
    }
}

#[test]
fn it_should_write_data() {
    let mut cmd = Commands::NotImplemented(NotImplemented::new());
    let mut stream = BufferedStream::new();

    let size = cmd.response(&mut stream, &mut TestCtx).unwrap();

    assert_eq!(size, 4);
    assert_eq!(stream.pos(), 4);
    assert_eq!(&stream.buffer[..4], b"$#00");
}

#[test]
fn it_should_escape_data() {
    let mut stream = BufferedStream::new();
    let mut state = ResponseWriter::new(&[]);

    let mut size = state.write(&mut stream, b'$').unwrap();
    size += state.write(&mut stream, b'B').unwrap();

    assert_eq!(size, 3);
    assert_eq!(stream.pos(), 3);
    assert_eq!(&stream.buffer[..4], &[b'}', 4, b'B', 0]);
}

#[test]
fn it_should_fail_if_resize_is_not_possible() {
    let mut stream = BufferedStream::new();
    let mut state = ResponseWriter::new(&[]);

    let mut i = 0;
    while i < stream.len() {
        state.write(&mut stream, b'f').unwrap();
        i = i + 1;
    }

    assert_eq!(stream.len(), 512);
    assert_eq!(stream.pos(), 512);
    let err = state.write_all(&mut stream, b"Hello").unwrap_err();
    assert_eq!(err, Errors::MemoryFilledInterupt);
}
