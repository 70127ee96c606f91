//! Decoding of write-ahead log into what a page server stores.
pub mod buffers;
pub mod key;
pub mod lsn;
pub mod orioledb_state;
pub mod postgres;
pub mod serialized_batch;
pub mod value;
pub mod wire;
