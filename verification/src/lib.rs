//! Reading `.phirarec` replay files in the tphira-mp format.

pub mod error;
pub mod bytes;
pub mod model;
pub mod content;
pub mod format;
pub mod laws;
pub mod roundtrip;
pub mod truncation;
pub mod readback;
pub mod format_laws;
pub mod layout;

pub use error::{RecordError, ValueKind, decimal_text};
pub use model::{TouchPoint, TouchFrame, JudgeEvent, PhiraRecord};
pub use bytes::{read_uleb, read_string};
pub use content::parse_tphira_content;
pub use format::{
    FormatDetection, is_phirarec, decompress_payload, classify_header, detect_format,
    parse_record, HEADER_SIZE, COMPRESSION_NONE, COMPRESSION_ZSTD, COMPRESSION_DEFLATE,
};
