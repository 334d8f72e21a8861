//! Codec for MSX cassette images: a byte stream of marker-delimited blocks,
//! grouped into binary, Basic, ASCII and custom files.

pub mod block;
pub mod error;
pub mod file;
pub mod files;
pub mod laws;
pub mod name;
pub mod split;
pub mod tape;
pub mod trusted;

pub use block::{Block, BlockKind};
pub use error::DecodeError;
pub use file::{File, FileKind};
pub use files::Files;
pub use name::file_name;
pub use tape::Tape;
