//! A buffered reader whose buffer grows on demand up to a configured ceiling, keeps consumed
//! bytes for lookbehind, and leaves the release of memory to the caller.

pub mod capacity;
pub mod error;
pub mod source;
pub mod buffer;
pub mod search;
pub mod reader;
pub mod read;
pub mod laws;

pub use capacity::{CHUNK_SIZE, DEFAULT_MAX_CAPACITY};
pub use error::{ErrorKind, ReadError};
pub use buffer::{Buffer, BufferView};
pub use reader::{Reader, ReaderBuilder, ReaderView};
pub use source::SeekPos;
pub use read::DynamicRead;
