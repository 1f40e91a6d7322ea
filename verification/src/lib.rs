//! A streaming CSV-to-JSON transcoder.
//!
//! The library turns a CSV document, arriving as arbitrary byte chunks, into
//! the bytes of one JSON array with one object per data row. The first CSV row
//! names the fields; every later row becomes an object whose keys are those
//! names in header order. Decoding and encoding are incremental: the decoder
//! buffers only the partially parsed row, and the encoder emits one byte chunk
//! per record, so the whole document is never held in memory.

pub mod decode;
pub mod encode;
pub mod options;
pub mod pathname;
pub mod pipeline;

pub use decode::{CsvDecoder, DecodeError, Record};
pub use encode::JsonArrayEncoder;
pub use options::{default_delimiter, default_quote, ParseOptions};
pub use pathname::replace_file_extension;
pub use pipeline::{convert_csv, CsvToJson};
