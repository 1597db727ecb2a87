//! Decoder for the Xlog binary log container: it frames the blocks of a file,
//! decrypts and decompresses them, and parses the recovered text into records.

pub mod assemble;
pub mod codec;
pub mod decode;
pub mod endian;
pub mod export;
pub mod frame;
pub mod key;
pub mod laws;
pub mod line;
pub mod probe;
pub mod tea;
pub mod text;

pub use decode::{decode, parse_xlog};
pub use export::{export_lines, format_entry};
pub use line::{parse_lines, parse_log_line, LogEntry};
pub use probe::is_xlog_file;
