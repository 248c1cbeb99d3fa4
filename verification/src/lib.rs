//! A bounded history of copy events that never stores the same content twice.
//!
//! * [`event`]: the captured event, its items and their typed payloads.
//! * [`json`]: the text that an event is stored as; [`decode`] reads it
//!   back, and [`roundtrip`] proves that reading undoes writing.
//! * [`store`]: the store itself, with insertion that recognises content it
//!   holds, eviction of the oldest rows, lookup, deletion and capacity.
//! * [`fingerprint`]: the digest by which the store recognises content.
//! * [`settings`]: how the capacity is recorded as text.
//! * [`time`]: timestamps, and their RFC 3339 text as it is kept in a file.
//! * [`laws`]: what holds across the store's operations.
//! * [`outside`]: the calls into other crates, whose contracts are trusted.

pub mod decode;
pub mod error;
pub mod event;
pub mod fingerprint;
pub mod json;
pub mod laws;
pub mod outside;
pub mod roundtrip;
pub mod settings;
pub mod store;
pub mod time;

pub use crate::error::StoreError;
pub use crate::event::{CopyEvent, Data, DataView, Event, Item};
pub use crate::store::{Database, DatabaseView, StoredEvent, StoredEventView, DEFAULT_MAX_ITEMS};
pub use crate::time::Timestamp;
