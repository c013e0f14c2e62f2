pub mod checksum;
pub mod cli;
pub mod crdt;
pub mod codec;
pub mod compress;
pub mod db;
pub mod error;
pub mod event;
pub mod event_codec;
pub mod index;
pub mod journal;
pub mod materialized_view;
pub mod query;
pub mod segment;
pub mod segment_file;
pub mod segment_journal;
pub mod temporal;
pub mod timeline;
pub mod wal;

pub use error::Error;
pub use event::{Event, EventBuilder, EventId, EventMetadata, EventPayload, EventType, EventView};
pub use temporal::{TemporalValue, TimePeriod, Timestamp};
