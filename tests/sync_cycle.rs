use std::cell::RefCell;

use oplog_sync::{
    ApplyDomainOp, Change, JsonMember, JsonValue, OpType, RemoteOp, SyncClient, SyncEngine,
    SyncError,
};

struct Applier {
    fail_on: Option<String>,
    calls: RefCell<usize>,
}

impl ApplyDomainOp<Vec<String>> for Applier {
    fn apply(&self, tx: &mut Vec<String>, op: &RemoteOp) -> Result<(), SyncError> {
        *self.calls.borrow_mut() += 1;
        tx.push(op.remote_id.clone());
        if self.fail_on.as_deref() == Some(op.remote_id.as_str()) {
            return Err(SyncError::Host("applier failed".to_string()));
        }
        Ok(())
    }
}

fn op(id: &str) -> RemoteOp {
    RemoteOp {
        remote_id: id.to_string(),
        table_name: "trips".to_string(),
        row_id: "t1".to_string(),
        op_type: OpType::Delete,
        columns: None,
        new_row: None,
        old_row: None,
        hlc: "1-0-S".to_string(),
        origin: "S".to_string(),
    }
}

fn client_with_changes(fail_on: Option<&str>) -> SyncClient<Applier> {
    let mut e = SyncEngine::new();
    e.init_schema().unwrap();
    let row = JsonValue::object(vec![JsonMember::new("id", "\"t1\"")]);
    e.log_insert_fullrow("trips", "t1", &row, "A").unwrap();
    e.log_delete("trips", "t1", "A").unwrap();
    SyncClient::from_parts(
        e,
        Applier { fail_on: fail_on.map(|s| s.to_string()), calls: RefCell::new(0) },
    )
}

#[test]
fn cursor_durability() {
    let mut client = client_with_changes(Some("bad"));
    let pushed: RefCell<Vec<i64>> = RefCell::new(Vec::new());
    let mut tx: Vec<String> = Vec::new();
    let push = |cs: &[Change]| -> Result<Vec<i64>, SyncError> {
        let ids: Vec<i64> = cs.iter().map(|c| c.change_id).collect();
        pushed.borrow_mut().extend(ids.iter().copied());
        Ok(ids)
    };
    let pull_ok = |cursor: Option<String>| -> Result<(Vec<RemoteOp>, Option<String>), SyncError> {
        assert_eq!(cursor, None);
        Ok((vec![op("r1")], Some("c1".to_string())))
    };
    client.sync_cycle(push, pull_ok, &mut tx, 10).unwrap();
    assert_eq!(*pushed.borrow(), vec![1, 2]);
    assert_eq!(client.engine().get_remote_cursor().unwrap(), Some("c1".to_string()));
    assert!(client.engine().get_pending_ops(10).unwrap().is_empty());
    assert!(client.engine().is_applied("r1"));

    let pull_bad = |cursor: Option<String>| -> Result<(Vec<RemoteOp>, Option<String>), SyncError> {
        assert_eq!(cursor, Some("c1".to_string()));
        Ok((vec![op("r2"), op("bad")], Some("c2".to_string())))
    };
    let r = client.sync_cycle(push, pull_bad, &mut tx, 10);
    assert!(matches!(r, Err(SyncError::Host(_))));
    assert_eq!(client.engine().get_remote_cursor().unwrap(), Some("c1".to_string()));
    assert!(!client.engine().is_applied("r2"));
}

#[test]
fn push_failure_leaves_changes_pending() {
    let mut client = client_with_changes(None);
    let mut tx: Vec<String> = Vec::new();
    let push = |_: &[Change]| -> Result<Vec<i64>, SyncError> { Err(SyncError::Host("offline".to_string())) };
    let pull = |_: Option<String>| -> Result<(Vec<RemoteOp>, Option<String>), SyncError> {
        Ok((Vec::new(), Some("never".to_string())))
    };
    let r = client.sync_cycle(push, pull, &mut tx, 10);
    assert!(matches!(r, Err(SyncError::Host(_))));
    assert_eq!(client.engine().get_pending_ops(10).unwrap().len(), 2);
    assert_eq!(client.engine().get_remote_cursor().unwrap(), None);
}

#[test]
fn partial_ack_and_no_new_cursor() {
    let mut client = client_with_changes(None);
    let mut tx: Vec<String> = Vec::new();
    let push = |cs: &[Change]| -> Result<Vec<i64>, SyncError> { Ok(vec![cs[0].change_id]) };
    let pull = |_: Option<String>| -> Result<(Vec<RemoteOp>, Option<String>), SyncError> { Ok((Vec::new(), None)) };
    client.sync_cycle(push, pull, &mut tx, 1).unwrap();
    let pending = client.engine().get_pending_ops(10).unwrap();
    assert_eq!(pending.len(), 1);
    assert_eq!(pending[0].change_id, 2);
    assert_eq!(client.engine().get_remote_cursor().unwrap(), None);
}

#[test]
fn new_client_is_ready() {
    let client = SyncClient::new(Applier { fail_on: None, calls: RefCell::new(0) }).unwrap();
    assert_eq!(client.engine().get_schema_version().unwrap(), 1);
    assert!(client.engine().get_pending_ops(5).unwrap().is_empty());
}

#[test]
fn apply_pulled_sets_cursor_only_on_success() {
    let mut client = SyncClient::new(Applier { fail_on: Some("x".to_string()), calls: RefCell::new(0) }).unwrap();
    let mut tx: Vec<String> = Vec::new();
    client.apply_pulled(&[op("a")], Some("k1".to_string()), &mut tx).unwrap();
    assert_eq!(client.engine().get_remote_cursor().unwrap(), Some("k1".to_string()));
    assert!(client.apply_pulled(&[op("x")], Some("k2".to_string()), &mut tx).is_err());
    assert_eq!(client.engine().get_remote_cursor().unwrap(), Some("k1".to_string()));
    client.apply_pulled(&[], None, &mut tx).unwrap();
    assert_eq!(client.engine().get_remote_cursor().unwrap(), Some("k1".to_string()));
}

#[test]
fn pull_failure_is_returned_after_acks() {
    let mut client = client_with_changes(None);
    let mut tx: Vec<String> = Vec::new();
    let push = |cs: &[Change]| -> Result<Vec<i64>, SyncError> { Ok(cs.iter().map(|c| c.change_id).collect()) };
    let pull = |_: Option<String>| -> Result<(Vec<RemoteOp>, Option<String>), SyncError> {
        Err(SyncError::Host("pull offline".to_string()))
    };
    let r = client.sync_cycle(push, pull, &mut tx, 10);
    assert_eq!(r, Err(SyncError::Host("pull offline".to_string())));
    assert!(client.engine().get_pending_ops(10).unwrap().is_empty());
    assert_eq!(client.engine().get_remote_cursor().unwrap(), None);
    assert!(tx.is_empty());
}
