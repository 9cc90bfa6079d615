pub mod record;
pub mod compact;
pub mod cost;
pub mod tracker;
pub mod store;
pub mod interchange;

pub use record::{Record, RecordAt, Element, Stored, JsonType, SchemaError, Error, decode};
pub use compact::{compact, compact_with, sort_records, MERGE_WINDOW, RETENTION};
pub use cost::calc_usage;
pub use tracker::{Tracker, clamp_timestamp, records_after};
pub use store::decode_store;
