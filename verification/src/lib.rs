//! A structured-log pipeline: records are captured per severity into bounded
//! caches, shipped in batches to partitioned, time-ordered storage, and read
//! back through filtered queries.
//!
//! Every partition is named after one `(host, app, severity)` triple, and its
//! keys are the big-endian bytes of 128-bit identifiers whose high 48 bits are
//! a millisecond timestamp, so that byte order is time order.
//!
//! The library decides and computes; it reads no store and opens no
//! connection. Whoever runs it hands it what was read and carries out what
//! it asks for.

pub mod cache;
pub mod client;
pub mod error;
pub mod format;
pub mod id;
pub mod identity;
pub mod inventory;
pub mod level;
pub mod outside;
pub mod pattern;
pub mod query;
pub mod record;
pub mod server;
pub mod shipper;
pub mod store;
pub mod text;
pub mod tree_name;

pub use cache::{CacheLimit, SubscriberCache};
pub use client::BasicProxy;
pub use error::Error;
pub use format::SerializationFormat;
pub use id::{slice_be_to_u128, ulid_ceiling, ulid_floor, IdGenerator, Timestamp};
pub use identity::{App, AppParseError, Host, HostParseError};
pub use inventory::{LogTreeDetail, LogTreeDetailParams, LogTreeInfo, ParseLogTreeInfoError};
pub use level::Level;
pub use query::{filter_with_option, QueryParams, QueryResponse};
pub use record::{LogBatch, LogData};
pub use server::{error_to_reply, AppReply};
pub use shipper::Shipper;
pub use tree_name::TreeName;
