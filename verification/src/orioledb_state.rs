//! Cold-start state of the OrioleDB engine, derived from its log records.
//!
//! `container` reads the records, `summary` accumulates them, and `packed` is
//! the byte format in which the summary is handed to a compute node.
pub mod container;
pub mod packed;
pub mod summary;
pub mod wal_rec_type;

pub use container::ContainerHeader;
pub use container::ContainerParseError;
pub use container::OrioleDbRecordDelta;
pub use container::decode_container_for_summary;
pub use container::parse_container_header;
pub use container::scan_container_body;
pub use packed::DecodeError;
pub use packed::ORIOLEDB_STATE_ENCODED_SIZE;
pub use packed::ORIOLEDB_STATE_MAGIC;
pub use packed::ORIOLEDB_STATE_V2_FIXED_SIZE;
pub use packed::ORIOLEDB_STATE_V3_HEADER_SIZE;
pub use packed::ORIOLEDB_STATE_V3_MAX_ELEMENTS;
pub use packed::ORIOLEDB_STATE_VERSION;
pub use packed::PENDING_MERGE_SIZE;
pub use packed::PENDING_SPLIT_SIZE;
pub use packed::PER_TREE_COUNTERS_SIZE;
pub use summary::IngestError;
pub use summary::OrioleDBColdStartSummary;
pub use summary::PendingMerge;
pub use summary::PendingSplit;
pub use summary::PerTreeCounters;
