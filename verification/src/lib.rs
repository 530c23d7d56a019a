//! An in-memory store of JSON rows, kept by partition key and row key.
//!
//! A row is the bytes of one JSON object with the fields `PartitionKey`,
//! `RowKey` and `TimeStamp`, and an `Expires` field where it expires. The
//! store reads the keys and the expiration out of the bytes, writes the
//! time stamp and new expirations into them, and keeps the rows in tables
//! of partitions. Beside the rows it keeps two indices of what expires,
//! rows within each partition and partitions within each table, counts the
//! bytes it holds, and tells what is to be collected: what is due, and
//! what was read longest ago where a table or a partition holds more than
//! it may.
//!
//! Every function is verified against its contract. A few items are
//! taken on trust, each a single call into the standard library:
//! [`text::utf8_text`], `db::db_row::share`, and the three calls by which
//! [`date_time::DateTimeAsMicroseconds::now`] reads the clock.

pub mod date_time;
pub mod db;
pub mod db_json_entity;
pub mod expiration_index;
pub mod json_writer;
pub mod key_order;
pub mod lru;
pub mod ordered_map;
pub mod sync_to_main;
pub mod text;

pub use expiration_index::{ExpirationIndex, ExpirationItemsAreSame};
