//! Offline-first sync engine: a local oplog whose changes carry hybrid logical
//! clock tokens and move from pending to pushed to acked; remote ops applied
//! atomically and at most once per remote id; a resumable pull cursor; and a
//! last-writer-wins row merge.

pub mod hlc;
pub mod json;
pub mod merge;
pub mod model;
pub mod oplog;
pub mod sync;
pub mod text;
pub mod types;

pub use hlc::{format_hlc, parse_hlc, should_overwrite};
pub use json::{JsonMember, JsonValue};
pub use merge::lww_merge_row;
pub use model::EngineParts;
pub use oplog::{ApplyDomainOp, SyncEngine};
pub use sync::SyncClient;
pub use types::{AppliedOp, Change, OpType, RemoteOp, SyncError, SyncStatus};
