//! Byte-stream reading with bounded buffering and a mark/reset facility:
//! a reader records what it hands out after `mark`, and `reset` replays it.

pub mod buffer;
pub mod buffered_markable_reader;
pub mod laws;
pub mod mark_log;
pub mod marker;
pub mod markable_reader;
pub mod source;

pub use buffer::{Buffer, CapacityExceeded};
pub use source::{ByteSource, MemorySource, NoFault, ReadError};
pub use marker::MarkerStream;
pub use markable_reader::MarkableReader;
pub use buffered_markable_reader::BufferedMarkableReader;
