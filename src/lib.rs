//! Delta encoding of indexed byte fields: a position-aligned byte diff, a
//! compact binary record format, and a stateful engine that produces and
//! applies integrity-checked multi-field patches.

pub mod crc;
pub mod data_difference;
pub mod difference;
pub mod engine;
pub mod entry;
pub mod error;
pub mod protocol;
pub mod single_field;
pub mod stream;
pub mod varint;

pub use data_difference::DataDifference;
pub use difference::{Difference, DifferenceAction, Range, USizeType};
pub use engine::SimpleDirectDeltaEncoding;
pub use entry::{EntryDifference, HistoryValue, IndexedData, IndexedDataResult};
pub use error::SDDEError;
