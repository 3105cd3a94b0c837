use std::cell::RefCell;

use oplog_sync::{
    ApplyDomainOp, JsonMember, JsonValue, OpType, RemoteOp, SyncEngine, SyncError, SyncStatus,
};

fn obj(members: &[(&str, &str)]) -> JsonValue {
    JsonValue::object(members.iter().map(|(k, v)| JsonMember::new(k, v)).collect())
}

fn ready_engine() -> SyncEngine {
    let mut e = SyncEngine::new();
    e.init_schema().unwrap();
    e
}

fn remote(id: &str, op_type: OpType, new_row: Option<JsonValue>) -> RemoteOp {
    RemoteOp {
        remote_id: id.to_string(),
        table_name: "trips".to_string(),
        row_id: "t1".to_string(),
        op_type,
        columns: None,
        new_row,
        old_row: None,
        hlc: "1000-0-S".to_string(),
        origin: "S".to_string(),
    }
}

/// Writes `(remote_id, row_id)` into the staged domain rows it is lent, and
/// fails on one chosen remote id.
struct RecordingApplier {
    calls: RefCell<Vec<String>>,
    fail_on: Option<String>,
}

impl RecordingApplier {
    fn new(fail_on: Option<&str>) -> Self {
        RecordingApplier { calls: RefCell::new(Vec::new()), fail_on: fail_on.map(|s| s.to_string()) }
    }
}

impl ApplyDomainOp<Vec<(String, String)>> for RecordingApplier {
    fn apply(&self, tx: &mut Vec<(String, String)>, op: &RemoteOp) -> Result<(), SyncError> {
        self.calls.borrow_mut().push(op.remote_id.clone());
        tx.push((op.remote_id.clone(), op.row_id.clone()));
        if self.fail_on.as_deref() == Some(op.remote_id.as_str()) {
            return Err(SyncError::Host("applier failed".to_string()));
        }
        Ok(())
    }
}

/// Runs one batch in a transaction over `domain`: the staged rows replace
/// `domain` only when the batch succeeds.
fn apply_in_tx(
    e: &mut SyncEngine,
    ops: &[RemoteOp],
    applier: &RecordingApplier,
    domain: &mut Vec<(String, String)>,
) -> Result<(), SyncError> {
    let mut staged = domain.clone();
    let r = e.apply_remote_ops(ops, applier, &mut staged);
    if r.is_ok() {
        *domain = staged;
    }
    r
}

#[test]
fn log_and_fetch_pending() {
    let mut e = ready_engine();
    let id1 = e
        .log_insert_fullrow("trips", "t1", &obj(&[("id", "\"t1\""), ("name", "\"x\"")]), "A")
        .unwrap();
    assert_eq!(id1, 1);
    let cols = JsonValue::other("[\"name\"]");
    let new_row = obj(&[("id", "\"t1\""), ("name", "\"y\"")]);
    let old_row = obj(&[("id", "\"t1\""), ("name", "\"x\"")]);
    let id2 = e
        .log_update("trips", "t1", Some(&cols), Some(&new_row), Some(&old_row), "A")
        .unwrap();
    assert_eq!(id2, 2);
    let pending = e.get_pending_ops(10).unwrap();
    assert_eq!(pending.len(), 2);
    assert_eq!(pending[0].change_id, 1);
    assert_eq!(pending[1].change_id, 2);
    assert_eq!(pending[0].op_type, OpType::Insert);
    assert_eq!(pending[1].op_type, OpType::Update);
    assert_eq!(pending[0].sync_status, SyncStatus::Pending);
    assert_eq!(pending[1].sync_status, SyncStatus::Pending);
    assert_eq!(pending[1].columns, Some(cols));
    assert_eq!(pending[1].old_row, Some(old_row));
    assert_eq!(pending[0].table_name, "trips");
    assert_eq!(pending[0].origin, "A");
    assert!(should_be_later(&pending[1].hlc, &pending[0].hlc));
}

fn should_be_later(a: &str, b: &str) -> bool {
    oplog_sync::should_overwrite(a, b)
}

#[test]
fn ack_lifecycle() {
    let mut e = ready_engine();
    e.log_insert_fullrow("trips", "t1", &obj(&[("id", "\"t1\"")]), "A").unwrap();
    e.log_update("trips", "t1", None, None, None, "A").unwrap();
    e.mark_ops_acked(&[1, 2]).unwrap();
    assert!(e.get_pending_ops(10).unwrap().is_empty());
    assert_eq!(e.get_change(1).unwrap().sync_status, SyncStatus::Acked);
}

#[test]
fn json_payload_round_trip() {
    let mut e = ready_engine();
    let v = obj(&[("id", "\"t9\""), ("nested", "{\"a\":[1,2,{\"b\":null}]}"), ("n", "1.5e3")]);
    let id = e.log_insert_fullrow("trips", "t9", &v, "A").unwrap();
    let pending = e.get_pending_ops(-1).unwrap();
    assert_eq!(pending.len(), 1);
    assert_eq!(pending[0].change_id, id);
    assert_eq!(pending[0].new_row, Some(v));
    assert_eq!(pending[0].old_row, None);
    assert_eq!(pending[0].columns, None);
}

#[test]
fn logged_change_is_pending_with_clock_token() {
    let mut e = ready_engine();
    let id = e
        .log_change_at("trips", "t1", OpType::Delete, None, None, None, "dev", 4242)
        .unwrap();
    let c = e.get_change(id).unwrap();
    assert_eq!(c.sync_status, SyncStatus::Pending);
    assert_eq!(c.hlc, "4242-0-dev");
    assert_eq!(e.next_hlc_at("dev", 4242).unwrap(), "4242-1-dev");
}

#[test]
fn status_only_moves_forward() {
    let mut e = ready_engine();
    for i in 0..3 {
        e.log_change_at("t", &format!("r{}", i), OpType::Delete, None, None, None, "A", 10).unwrap();
    }
    e.mark_ops_pushed(&[1, 2, 99]).unwrap();
    assert_eq!(e.get_change(1).unwrap().sync_status, SyncStatus::Pushed);
    e.mark_ops_acked(&[1]).unwrap();
    e.mark_ops_pushed(&[1]).unwrap();
    assert_eq!(e.get_change(1).unwrap().sync_status, SyncStatus::Acked);
    assert_eq!(e.get_change(2).unwrap().sync_status, SyncStatus::Pushed);
    assert_eq!(e.get_change(3).unwrap().sync_status, SyncStatus::Pending);
    let pending = e.get_pending_ops(10).unwrap();
    assert_eq!(pending.len(), 1);
    assert_eq!(pending[0].change_id, 3);
    assert!(e.get_change(99).is_none());
}

#[test]
fn pending_limit() {
    let mut e = ready_engine();
    for i in 0..4 {
        e.log_change_at("t", &format!("r{}", i), OpType::Delete, None, None, None, "A", 10).unwrap();
    }
    assert!(e.get_pending_ops(0).unwrap().is_empty());
    let two = e.get_pending_ops(2).unwrap();
    assert_eq!(two.iter().map(|c| c.change_id).collect::<Vec<_>>(), vec![1, 2]);
    assert_eq!(e.get_pending_ops(-1).unwrap().len(), 4);
    assert_eq!(e.get_pending_ops(100).unwrap().len(), 4);
    e.mark_ops_acked(&[1, 3]).unwrap();
    let rest = e.get_pending_ops(10).unwrap();
    assert_eq!(rest.iter().map(|c| c.change_id).collect::<Vec<_>>(), vec![2, 4]);
}

#[test]
fn log_rejects_bad_shape() {
    let mut e = ready_engine();
    let r = e.log_local_change("t", "r", OpType::Insert, None, None, None, "1-0-A", "A");
    assert!(matches!(r, Err(SyncError::State(_))));
    let row = obj(&[("a", "1")]);
    let r = e.log_local_change("t", "r", OpType::Delete, None, Some(&row), None, "1-0-A", "A");
    assert!(matches!(r, Err(SyncError::State(_))));
    assert!(e.get_pending_ops(10).unwrap().is_empty());
}

#[test]
fn log_rejects_duplicate_token() {
    let mut e = ready_engine();
    let row = obj(&[("a", "1")]);
    assert_eq!(
        e.log_local_change("t", "r", OpType::Insert, None, Some(&row), None, "1-0-A", "A").unwrap(),
        1
    );
    let r = e.log_local_change("t", "r", OpType::Insert, None, Some(&row), None, "1-0-A", "A");
    assert!(matches!(r, Err(SyncError::Store(_))));
    assert_eq!(
        e.log_local_change("t", "r", OpType::Insert, None, Some(&row), None, "1-0-A", "B").unwrap(),
        2
    );
}

#[test]
fn failed_log_keeps_clock() {
    let mut e = ready_engine();
    let row = obj(&[("a", "1")]);
    e.log_local_change("t", "r", OpType::Insert, None, Some(&row), None, "50-0-A", "A").unwrap();
    let r = e.log_change_at("t", "r", OpType::Insert, None, Some(&row), None, "A", 50);
    assert!(matches!(r, Err(SyncError::Store(_))));
    assert_eq!(e.next_hlc_at("A", 50).unwrap(), "50-0-A");
}

#[test]
fn operations_need_schema() {
    let mut e = SyncEngine::new();
    assert!(matches!(e.get_pending_ops(1), Err(SyncError::Store(_))));
    assert!(matches!(e.log_delete("t", "r", "A"), Err(SyncError::Store(_))));
    assert!(matches!(e.mark_ops_acked(&[1]), Err(SyncError::Store(_))));
    assert!(matches!(e.get_remote_cursor(), Err(SyncError::Store(_))));
    assert!(matches!(e.set_remote_cursor("c"), Err(SyncError::Store(_))));
    assert!(matches!(e.get_schema_version(), Err(SyncError::Store(_))));
    e.init_schema().unwrap();
    e.init_schema().unwrap();
    assert_eq!(e.get_schema_version().unwrap(), 1);
}

#[test]
fn migrations() {
    let mut e = ready_engine();
    assert!(matches!(e.run_migrations(0), Err(SyncError::State(_))));
    e.run_migrations(3).unwrap();
    assert_eq!(e.get_schema_version().unwrap(), 3);
    e.run_migrations(2).unwrap();
    assert_eq!(e.get_schema_version().unwrap(), 3);
    let mut fresh = SyncEngine::new();
    assert!(matches!(fresh.run_migrations(2), Err(SyncError::Store(_))));
    assert!(matches!(fresh.run_migrations(-1), Err(SyncError::State(_))));
}

#[test]
fn cursor_round_trip() {
    let mut e = ready_engine();
    assert_eq!(e.get_remote_cursor().unwrap(), None);
    e.set_remote_cursor("c1").unwrap();
    assert_eq!(e.get_remote_cursor().unwrap(), Some("c1".to_string()));
    e.set_remote_cursor("c2").unwrap();
    assert_eq!(e.get_remote_cursor().unwrap(), Some("c2".to_string()));
}

#[test]
fn remote_apply_idempotent() {
    let mut e = ready_engine();
    let applier = RecordingApplier::new(None);
    let mut domain = Vec::new();
    let ops = vec![
        remote("r1", OpType::Insert, Some(obj(&[("id", "\"t1\""), ("v", "1")]))),
        remote("r2", OpType::Update, Some(obj(&[("v", "2")]))),
    ];
    apply_in_tx(&mut e, &ops, &applier, &mut domain).unwrap();
    assert_eq!(*applier.calls.borrow(), vec!["r1".to_string(), "r2".to_string()]);
    assert_eq!(domain.len(), 2);
    assert!(e.is_applied("r1") && e.is_applied("r2"));
    applier.calls.borrow_mut().clear();
    apply_in_tx(&mut e, &ops, &applier, &mut domain).unwrap();
    assert!(applier.calls.borrow().is_empty());
    assert_eq!(domain.len(), 2);
}

#[test]
fn remote_apply_atomic_on_failure() {
    let mut e = ready_engine();
    let applier = RecordingApplier::new(Some("r4"));
    let mut domain = Vec::new();
    let ops = vec![remote("r3", OpType::Delete, None), remote("r4", OpType::Delete, None)];
    let r = apply_in_tx(&mut e, &ops, &applier, &mut domain);
    assert!(matches!(r, Err(SyncError::Host(_))));
    assert!(!e.is_applied("r3"));
    assert!(!e.is_applied("r4"));
    assert!(domain.is_empty());
    assert_eq!(e.plan_remote_ops(&ops), vec![0, 1]);
}

#[test]
fn remote_apply_dedupes_within_batch() {
    let mut e = ready_engine();
    let applier = RecordingApplier::new(None);
    let mut domain = Vec::new();
    let ops = vec![
        remote("r5", OpType::Delete, None),
        remote("r6", OpType::Delete, None),
        remote("r5", OpType::Delete, None),
    ];
    assert_eq!(e.plan_remote_ops(&ops), vec![0, 1]);
    apply_in_tx(&mut e, &ops, &applier, &mut domain).unwrap();
    assert_eq!(*applier.calls.borrow(), vec!["r5".to_string(), "r6".to_string()]);
    let more = vec![remote("r6", OpType::Delete, None), remote("r7", OpType::Delete, None)];
    assert_eq!(e.plan_remote_ops(&more), vec![1]);
}

#[test]
fn remote_apply_empty_batch() {
    let mut e = ready_engine();
    let applier = RecordingApplier::new(None);
    let mut domain = Vec::new();
    apply_in_tx(&mut e, &[], &applier, &mut domain).unwrap();
    let mut fresh = SyncEngine::new();
    assert!(matches!(apply_in_tx(&mut fresh, &[], &applier, &mut domain), Err(SyncError::Store(_))));
}

#[test]
fn op_and_status_names() {
    assert_eq!(OpType::Insert.as_str(), "INSERT");
    assert_eq!(OpType::Update.as_str(), "UPDATE");
    assert_eq!(OpType::Delete.as_str(), "DELETE");
    assert_eq!(SyncStatus::Pending.as_str(), "pending");
    assert_eq!(SyncStatus::Pushed.as_str(), "pushed");
    assert_eq!(SyncStatus::Acked.as_str(), "acked");
}

#[test]
fn export_restore_round_trip() {
    let mut e = ready_engine();
    e.log_change_at("t", "r1", OpType::Insert, None, Some(&obj(&[("a", "1")])), None, "A", 7).unwrap();
    e.log_change_at("t", "r2", OpType::Delete, None, None, None, "A", 7).unwrap();
    e.mark_ops_pushed(&[1]).unwrap();
    e.set_remote_cursor("c9").unwrap();
    e.run_migrations(4).unwrap();
    let applier = RecordingApplier::new(None);
    let mut domain = Vec::new();
    apply_in_tx(&mut e, &[remote("rx", OpType::Delete, None)], &applier, &mut domain).unwrap();
    let mut back = SyncEngine::restore(e.export()).unwrap();
    assert_eq!(back.get_change(1).unwrap().sync_status, SyncStatus::Pushed);
    assert_eq!(back.get_pending_ops(10).unwrap().len(), 1);
    assert_eq!(back.get_remote_cursor().unwrap(), Some("c9".to_string()));
    assert_eq!(back.get_schema_version().unwrap(), 4);
    assert!(back.is_applied("rx"));
    assert_eq!(back.next_hlc_at("A", 7).unwrap(), "7-2-A");
    assert_eq!(back.log_delete("t", "r3", "A").unwrap(), 3);
}

#[test]
fn restore_refuses_broken_state() {
    let e = ready_engine();
    let mut parts = e.export();
    parts.hlc_last_ctr = -1;
    assert!(matches!(SyncEngine::restore(parts), Err(SyncError::State(_))));

    let mut e = ready_engine();
    e.log_change_at("t", "r1", OpType::Delete, None, None, None, "A", 7).unwrap();
    e.log_change_at("t", "r2", OpType::Delete, None, None, None, "A", 8).unwrap();
    let mut parts = e.export();
    parts.changes.swap(0, 1);
    assert!(matches!(SyncEngine::restore(parts), Err(SyncError::State(_))));

    let mut parts = e.export();
    parts.changes[1].hlc = parts.changes[0].hlc.clone();
    assert!(matches!(SyncEngine::restore(parts), Err(SyncError::State(_))));

    let mut parts = e.export();
    parts.last_change_id = 1;
    assert!(matches!(SyncEngine::restore(parts), Err(SyncError::State(_))));

    let mut parts = e.export();
    parts.applied.push(oplog_sync::AppliedOp { remote_id: "x".to_string(), applied_ms: 1 });
    parts.applied.push(oplog_sync::AppliedOp { remote_id: "x".to_string(), applied_ms: 2 });
    assert!(matches!(SyncEngine::restore(parts), Err(SyncError::State(_))));
}

#[test]
fn error_codes() {
    assert_eq!(SyncError::Store("x".to_string()).code(), 1);
    assert_eq!(SyncError::State("x".to_string()).code(), 3);
    assert_eq!(SyncError::Host("x".to_string()).code(), 3);
    assert_eq!(SyncError::Encoding("x".to_string()).code(), 4);
}

#[test]
fn insert_requires_object_row() {
    let mut e = ready_engine();
    let r = e.log_insert_fullrow("t", "r", &JsonValue::other("[1,2]"), "A");
    assert!(matches!(r, Err(SyncError::State(_))));
    assert!(e.get_pending_ops(5).unwrap().is_empty());
    let mut fresh = SyncEngine::new();
    let r = fresh.log_insert_fullrow("t", "r", &obj(&[("a", "1")]), "A");
    assert!(matches!(r, Err(SyncError::Store(_))));
}
