//! The records the engine exchanges with its host, and their models.

use vstd::prelude::*;

use crate::json::{JsonModel, JsonValue};

verus! {

/// Logical operation type captured in the oplog.
#[derive(Clone, Copy, Debug, PartialEq, Eq, Structural)]
pub enum OpType {
    Insert,
    Update,
    Delete,
}

/// Push state of a local change; it only moves forward, `Pending` to `Pushed`
/// to `Acked` (or `Pending` straight to `Acked`).
#[derive(Clone, Copy, Debug, PartialEq, Eq, Structural)]
pub enum SyncStatus {
    Pending,
    Pushed,
    Acked,
}

pub open spec fn op_name(t: OpType) -> Seq<char> {
    match t {
        OpType::Insert => seq!['I', 'N', 'S', 'E', 'R', 'T'],
        OpType::Update => seq!['U', 'P', 'D', 'A', 'T', 'E'],
        OpType::Delete => seq!['D', 'E', 'L', 'E', 'T', 'E'],
    }
}

pub open spec fn status_name(s: SyncStatus) -> Seq<char> {
    match s {
        SyncStatus::Pending => seq!['p', 'e', 'n', 'd', 'i', 'n', 'g'],
        SyncStatus::Pushed => seq!['p', 'u', 's', 'h', 'e', 'd'],
        SyncStatus::Acked => seq!['a', 'c', 'k', 'e', 'd'],
    }
}

/// Position of a status along `Pending`, `Pushed`, `Acked`.
pub open spec fn status_rank(s: SyncStatus) -> int {
    match s {
        SyncStatus::Pending => 0,
        SyncStatus::Pushed => 1,
        SyncStatus::Acked => 2,
    }
}

impl OpType {
    /// The name under which the operation is stored and exchanged.
    pub fn as_str(self) -> (r: &'static str)
        ensures
            r@ == op_name(self),
    {
        match self {
            OpType::Insert => {
                proof { reveal_strlit("INSERT"); }
                "INSERT"
            },
            OpType::Update => {
                proof { reveal_strlit("UPDATE"); }
                "UPDATE"
            },
            OpType::Delete => {
                proof { reveal_strlit("DELETE"); }
                "DELETE"
            },
        }
    }
}

impl SyncStatus {
    /// The name under which the status is stored and exchanged.
    pub fn as_str(self) -> (r: &'static str)
        ensures
            r@ == status_name(self),
    {
        match self {
            SyncStatus::Pending => {
                proof { reveal_strlit("pending"); }
                "pending"
            },
            SyncStatus::Pushed => {
                proof { reveal_strlit("pushed"); }
                "pushed"
            },
            SyncStatus::Acked => {
                proof { reveal_strlit("acked"); }
                "acked"
            },
        }
    }
}

/// Local change recorded by the client oplog.
#[derive(Clone, Debug, PartialEq, Eq)]
pub struct Change {
    pub change_id: i64,
    pub table_name: String,
    pub row_id: String,
    pub op_type: OpType,
    pub columns: Option<JsonValue>,
    pub new_row: Option<JsonValue>,
    pub old_row: Option<JsonValue>,
    pub hlc: String,
    pub origin: String,
    pub sync_status: SyncStatus,
}

/// Remote op pulled from the server feed.
#[derive(Clone, Debug, PartialEq, Eq)]
pub struct RemoteOp {
    pub remote_id: String,
    pub table_name: String,
    pub row_id: String,
    pub op_type: OpType,
    pub columns: Option<JsonValue>,
    pub new_row: Option<JsonValue>,
    pub old_row: Option<JsonValue>,
    pub hlc: String,
    pub origin: String,
}

/// Errors of the engine.
#[derive(Clone, Debug, PartialEq, Eq)]
pub enum SyncError {
    /// The store refused the operation (missing tables, a unique key, exhaustion).
    Store(String),
    /// A payload is malformed.
    Encoding(String),
    /// An invariant or argument check failed.
    State(String),
    /// A host callback (applier, push, pull) failed.
    Host(String),
}

/// Exit code of an error at the host boundary: 1 for a store failure, 3 for an
/// invalid argument or state (a failed callback included), 4 for a malformed
/// payload.
pub open spec fn error_code(e: SyncError) -> int {
    match e {
        SyncError::Store(_) => 1,
        SyncError::State(_) => 3,
        SyncError::Host(_) => 3,
        SyncError::Encoding(_) => 4,
    }
}

impl SyncError {
    /// The exit code that reports this error to the host (see `error_code`).
    pub fn code(&self) -> (r: i32)
        ensures
            r as int == error_code(*self),
    {
        match self {
            SyncError::Store(_) => 1,
            SyncError::State(_) => 3,
            SyncError::Host(_) => 3,
            SyncError::Encoding(_) => 4,
        }
    }
}

/// The mathematical value of a `Change`.
pub struct ChangeModel {
    pub change_id: int,
    pub table_name: Seq<char>,
    pub row_id: Seq<char>,
    pub op_type: OpType,
    pub columns: Option<JsonModel>,
    pub new_row: Option<JsonModel>,
    pub old_row: Option<JsonModel>,
    pub hlc: Seq<char>,
    pub origin: Seq<char>,
    pub sync_status: SyncStatus,
}

pub open spec fn json_opt(o: Option<JsonValue>) -> Option<JsonModel> {
    match o {
        Some(v) => Some(v@),
        None => None,
    }
}

impl View for Change {
    type V = ChangeModel;

    open spec fn view(&self) -> ChangeModel {
        ChangeModel {
            change_id: self.change_id as int,
            table_name: self.table_name@,
            row_id: self.row_id@,
            op_type: self.op_type,
            columns: json_opt(self.columns),
            new_row: json_opt(self.new_row),
            old_row: json_opt(self.old_row),
            hlc: self.hlc@,
            origin: self.origin@,
            sync_status: self.sync_status,
        }
    }
}

fn copy_json_opt(o: &Option<JsonValue>) -> (r: Option<JsonValue>)
    ensures
        json_opt(r) == json_opt(*o),
{
    match o {
        Some(v) => Some(v.copy()),
        None => None,
    }
}

pub(crate) fn copy_json_ref(o: Option<&JsonValue>) -> (r: Option<JsonValue>)
    ensures
        json_opt(r) == match o {
            Some(v) => Some(v@),
            None => None::<JsonModel>,
        },
{
    match o {
        Some(v) => Some(v.copy()),
        None => None,
    }
}

impl Change {
    /// A copy with the same value.
    pub fn copy(&self) -> (r: Change)
        ensures
            r@ == self@,
    {
        Change {
            change_id: self.change_id,
            table_name: self.table_name.clone(),
            row_id: self.row_id.clone(),
            op_type: self.op_type,
            columns: copy_json_opt(&self.columns),
            new_row: copy_json_opt(&self.new_row),
            old_row: copy_json_opt(&self.old_row),
            hlc: self.hlc.clone(),
            origin: self.origin.clone(),
            sync_status: self.sync_status,
        }
    }
}

/// One entry of the applied-remote registry.
#[derive(Clone, Debug, PartialEq, Eq)]
pub struct AppliedOp {
    pub remote_id: String,
    pub applied_ms: i64,
}

} // verus!
