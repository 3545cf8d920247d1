//! Fixed-width big-endian integers and length-prefixed UTF-8 strings over byte streams.
pub mod codec;
pub mod error;
pub mod frame;
pub mod laws;
pub mod memory;
pub mod read;
pub mod write;

pub use error::ByteError;
pub use frame::LengthPrefix;
pub use memory::{ByteReader, ByteWriter};
pub use read::ReadBytes;
pub use write::WriteBytes;
