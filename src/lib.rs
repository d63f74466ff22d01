pub mod basic;
pub mod command;
pub mod error;
pub mod parser;
pub mod stream;
pub mod target;
pub mod wire;

pub use command::{Command, Commands, ResponseWriter, SupportedCommands};
pub use error::Errors;
pub use parser::{Endianness, Framing, Parsed, Parser};
pub use stream::{BufferedStream, Drain, NoDrain, Stream};
pub use target::{Target, VirtualTarget};
