//! The sync engine: local oplog, applied-remote registry and metadata of one
//! store, each operation atomic.

use vstd::prelude::*;

use crate::hlc::{format_hlc, hlc_advance, hlc_ticks, hlc_token};
use crate::json::{is_object, JsonValue};
use crate::model::{
    applied_ids, fresh_ids, has_token, lemma_fresh_ids, lemma_pending_prefix, listed, log_outcome,
    clock_covers, lemma_cover_token_free, lemma_log_keeps_cover, log_has_room, marked, model_wf, parts_model, pending_batch, pending_of, planned_ops, ref_json, remote_ids, shape_ok,
    appended, EngineModel, EngineParts,
};
use crate::types::{copy_json_ref, AppliedOp, Change, OpType, RemoteOp, SyncError, SyncStatus};

verus! {

/// Relies on chrono's `From<SystemTime> for DateTime<Utc>` and
/// `DateTime::timestamp_millis`: the system clock in milliseconds since the
/// Unix epoch, negative for a clock set before 1970 (chrono panics only for a
/// time some 262,000 years away from the epoch). Nothing is known of its value.
#[verifier::external_body]
fn now_millis() -> (r: i64) {
    chrono::DateTime::<chrono::Utc>::from(std::time::SystemTime::now()).timestamp_millis()
}

fn err_no_tables() -> (r: SyncError)
    ensures
        r is Store,
{
    SyncError::Store("the engine's tables are not initialised".to_owned())
}

/// Implemented by the host to apply a remote op to its domain tables, through
/// the transaction handle that `apply_remote_ops` lends it for the call.
pub trait ApplyDomainOp<T> {
    /// How a call relates the transaction before it, the op, the transaction
    /// after it and the call's result. An implementation may say what it is;
    /// by default it says nothing more than that the call took place.
    closed spec fn applies(&self, before: T, op: RemoteOp, after: T, r: Result<(), SyncError>) -> bool {
        true
    }

    fn apply(&self, tx: &mut T, op: &RemoteOp) -> (r: Result<(), SyncError>)
        ensures
            self.applies(*old(tx), *op, *final(tx), r),
    ;
}

/// `txs` and `rs` record a run of the applier `a` over `ops`, in order: call
/// `j` took transaction `txs[j]` and op `ops[j]`, left `txs[j + 1]` and
/// returned `rs[j]`; every call but the last succeeded.
pub open spec fn applier_trace<T, A: ApplyDomainOp<T>>(
    a: A,
    ops: Seq<RemoteOp>,
    txs: Seq<T>,
    rs: Seq<Result<(), SyncError>>,
) -> bool {
    &&& txs.len() == rs.len() + 1
    &&& rs.len() <= ops.len()
    &&& forall|j: int| 0 <= j < rs.len() ==> #[trigger] a.applies(txs[j], ops[j], txs[j + 1], rs[j])
    &&& forall|j: int| 0 <= j < rs.len() - 1 ==> (#[trigger] rs[j]) is Ok
}

/// The sync engine: owns the oplog, the applied-remote registry and the
/// metadata of one store.
pub struct SyncEngine {
    ready: bool,
    changes: Vec<Change>,
    last_change_id: i64,
    applied: Vec<AppliedOp>,
    hlc_last_ms: i64,
    hlc_last_ctr: i64,
    remote_cursor: Option<String>,
    schema_version: i32,
}

impl View for SyncEngine {
    type V = EngineModel;

    closed spec fn view(&self) -> EngineModel {
        EngineModel {
            ready: self.ready,
            changes: self.changes@.map_values(|c: Change| c@),
            last_id: self.last_change_id as int,
            applied: self.applied@.map_values(|a: AppliedOp| (a.remote_id@, a.applied_ms as int)),
            clock: (self.hlc_last_ms as int, self.hlc_last_ctr as int),
            cursor: match self.remote_cursor {
                Some(c) => Some(c@),
                None => None,
            },
            schema_version: self.schema_version as int,
        }
    }
}

impl SyncEngine {
    pub open spec fn wf(&self) -> bool {
        model_wf(self@)
    }

    /// A fresh, empty store whose tables do not exist yet.
    pub fn new() -> (r: SyncEngine)
        ensures
            r.wf(),
            r@ == (EngineModel {
                ready: false,
                changes: Seq::empty(),
                last_id: 0,
                applied: Seq::empty(),
                clock: (0, 0),
                cursor: None,
                schema_version: 1,
            }),
    {
        let r = SyncEngine {
            ready: false,
            changes: Vec::new(),
            last_change_id: 0,
            applied: Vec::new(),
            hlc_last_ms: 0,
            hlc_last_ctr: 0,
            remote_cursor: None,
            schema_version: 1,
        };
        assert(r@.changes =~= Seq::empty());
        assert(r@.applied =~= Seq::empty());
        r
    }

    /// Creates the engine's tables; calling it again changes nothing.
    pub fn init_schema(&mut self) -> (r: Result<(), SyncError>)
        requires
            old(self).wf(),
        ensures
            final(self).wf(),
            r is Ok,
            final(self)@ == (EngineModel { ready: true, ..old(self)@ }),
    {
        self.ready = true;
        Ok(())
    }

    /// Emits the next clock token for `origin` at wall-clock time `now_ms`.
    pub fn next_hlc_at(&mut self, origin: &str, now_ms: i64) -> (r: Result<String, SyncError>)
        requires
            old(self).wf(),
        ensures
            final(self).wf(),
            match r {
                Ok(tok) => {
                    &&& old(self)@.ready
                    &&& hlc_ticks(old(self)@.clock.0, old(self)@.clock.1, now_ms as int)
                    &&& final(self)@ == (EngineModel {
                        clock: hlc_advance(old(self)@.clock.0, old(self)@.clock.1, now_ms as int),
                        ..old(self)@
                    })
                    &&& tok@ == hlc_token(final(self)@.clock.0, final(self)@.clock.1, origin@)
                },
                Err(e) => {
                    &&& final(self)@ == old(self)@
                    &&& (e is Store || e is State)
                    &&& (e is Store <==> !old(self)@.ready)
                    &&& (e is State <==> old(self)@.ready && !hlc_ticks(
                        old(self)@.clock.0,
                        old(self)@.clock.1,
                        now_ms as int,
                    ))
                },
            },
    {
        if !self.ready {
            return Err(err_no_tables());
        }
        let (ms, ctr) = match self.tick(now_ms) {
            Some(c) => c,
            None => {
                return Err(SyncError::State("hlc counter exhausted".to_owned()));
            },
        };
        self.hlc_last_ms = ms;
        self.hlc_last_ctr = ctr;
        Ok(format_hlc(ms, ctr, origin))
    }

    /// The clock value one tick after the current one at time `now_ms`, if the
    /// counter has room.
    fn tick(&self, now_ms: i64) -> (r: Option<(i64, i64)>)
        requires
            self.wf(),
        ensures
            match r {
                Some(c) => {
                    &&& hlc_ticks(self@.clock.0, self@.clock.1, now_ms as int)
                    &&& (c.0 as int, c.1 as int) == hlc_advance(
                        self@.clock.0,
                        self@.clock.1,
                        now_ms as int,
                    )
                    &&& c.0 >= 0 && c.1 >= 0
                },
                None => !hlc_ticks(self@.clock.0, self@.clock.1, now_ms as int),
            },
    {
        if now_ms > self.hlc_last_ms {
            Some((now_ms, 0))
        } else if self.hlc_last_ctr == i64::MAX {
            None
        } else {
            Some((self.hlc_last_ms, self.hlc_last_ctr + 1))
        }
    }

    /// Emits the next clock token for `origin`, reading the wall clock.
    pub fn next_hlc(&mut self, origin: &str) -> (r: Result<String, SyncError>)
        requires
            old(self).wf(),
        ensures
            final(self).wf(),
            match r {
                Ok(tok) => {
                    &&& old(self)@.ready
                    &&& exists|now: int|
                        final(self)@ == (EngineModel {
                            clock: #[trigger] hlc_advance(
                                old(self)@.clock.0,
                                old(self)@.clock.1,
                                now,
                            ),
                            ..old(self)@
                        })
                    &&& tok@ == hlc_token(final(self)@.clock.0, final(self)@.clock.1, origin@)
                },
                Err(e) => final(self)@ == old(self)@ && (e is Store || e is State),
            },
            !old(self)@.ready ==> r matches Err(SyncError::Store(_)),
            old(self)@.ready && old(self)@.clock.1 < i64::MAX ==> r is Ok,
    {
        let now = now_millis();
        self.next_hlc_at(origin, now)
    }

    fn token_taken(&self, hlc: &String, origin: &String) -> (r: bool)
        requires
            self.wf(),
        ensures
            r == has_token(self@.changes, hlc@, origin@),
    {
        let ghost cs = self@.changes;
        let mut i: usize = 0;
        while i < self.changes.len()
            invariant
                i <= self.changes.len(),
                cs == self@.changes,
                cs.len() == self.changes.len(),
                forall|j: int| 0 <= j < i ==> !(cs[j].hlc == hlc@ && cs[j].origin == origin@),
            decreases self.changes.len() - i,
        {
            assert(cs[i as int] == self.changes@[i as int]@);
            if self.changes[i].hlc == *hlc && self.changes[i].origin == *origin {
                return true;
            }
            i = i + 1;
        }
        false
    }

    /// Appends a pending change carrying the given token. Fails without change
    /// when the tables are missing, when `new_row` is absent for an insert or
    /// present for a delete, when a change with the same `(hlc, origin)`
    /// exists, or when the ids are exhausted.
    pub fn log_local_change(
        &mut self,
        table_name: &str,
        row_id: &str,
        op_type: OpType,
        columns: Option<&JsonValue>,
        new_row: Option<&JsonValue>,
        old_row: Option<&JsonValue>,
        hlc: &str,
        origin: &str,
    ) -> (r: Result<i64, SyncError>)
        requires
            old(self).wf(),
        ensures
            final(self).wf(),
            match r {
                Ok(id) => {
                    &&& old(self)@.ready
                    &&& shape_ok(op_type, new_row is Some)
                    &&& !has_token(old(self)@.changes, hlc@, origin@)
                    &&& old(self)@.last_id < i64::MAX
                    &&& id == old(self)@.last_id + 1
                    &&& final(self)@ == appended(
                        old(self)@,
                        table_name@,
                        row_id@,
                        op_type,
                        ref_json(columns),
                        ref_json(new_row),
                        ref_json(old_row),
                        hlc@,
                        origin@,
                    )
                },
                Err(e) => {
                    &&& final(self)@ == old(self)@
                    &&& (e is Store || e is State)
                    &&& (e is State <==> old(self)@.ready && !shape_ok(op_type, new_row is Some))
                    &&& (e is Store <==> !old(self)@.ready || (shape_ok(op_type, new_row is Some)
                        && (has_token(old(self)@.changes, hlc@, origin@) || old(self)@.last_id
                        == i64::MAX)))
                },
            },
    {
        if !self.ready {
            return Err(err_no_tables());
        }
        let has_new = match new_row {
            Some(_) => true,
            None => false,
        };
        let shape = match op_type {
            OpType::Insert => has_new,
            OpType::Delete => !has_new,
            OpType::Update => true,
        };
        if !shape {
            return Err(SyncError::State("new_row must be set for INSERT and unset for DELETE".to_owned()));
        }
        let hlc_s = hlc.to_owned();
        let origin_s = origin.to_owned();
        if self.token_taken(&hlc_s, &origin_s) {
            return Err(SyncError::Store("a change with this (hlc, origin) is already logged".to_owned()));
        }
        if self.last_change_id == i64::MAX {
            return Err(SyncError::Store("change ids are exhausted".to_owned()));
        }
        let id = self.last_change_id + 1;
        let ch = Change {
            change_id: id,
            table_name: table_name.to_owned(),
            row_id: row_id.to_owned(),
            op_type,
            columns: copy_json_ref(columns),
            new_row: copy_json_ref(new_row),
            old_row: copy_json_ref(old_row),
            hlc: hlc_s,
            origin: origin_s,
            sync_status: SyncStatus::Pending,
        };
        let ghost before = self@;
        self.changes.push(ch);
        self.last_change_id = id;
        proof {
            let after = self@;
            assert(after.changes =~= before.changes.push(ch@));
            let m = after;
            assert forall|i: int, j: int|
                0 <= i < m.changes.len() && 0 <= j < m.changes.len() && i != j implies !(
            #[trigger] m.changes[i].hlc == #[trigger] m.changes[j].hlc && m.changes[i].origin
                == m.changes[j].origin) by {
                if i < before.changes.len() && j < before.changes.len() {
                    assert(m.changes[i] == before.changes[i]);
                    assert(m.changes[j] == before.changes[j]);
                } else if i < before.changes.len() {
                    assert(m.changes[i] == before.changes[i]);
                } else {
                    assert(m.changes[j] == before.changes[j]);
                }
            }
        }
        Ok(id)
    }

    /// Appends a pending change stamped with the next clock token at time
    /// `now_ms`; the clock advances only when the change is appended.
    pub fn log_change_at(
        &mut self,
        table_name: &str,
        row_id: &str,
        op_type: OpType,
        columns: Option<&JsonValue>,
        new_row: Option<&JsonValue>,
        old_row: Option<&JsonValue>,
        origin: &str,
        now_ms: i64,
    ) -> (r: Result<i64, SyncError>)
        requires
            old(self).wf(),
        ensures
            final(self).wf(),
            ({
                let c = hlc_advance(old(self)@.clock.0, old(self)@.clock.1, now_ms as int);
                let tok = hlc_token(c.0, c.1, origin@);
                let exhausted = !hlc_ticks(old(self)@.clock.0, old(self)@.clock.1, now_ms as int);
                match r {
                    Ok(id) => {
                        &&& old(self)@.ready
                        &&& shape_ok(op_type, new_row is Some)
                        &&& !exhausted
                        &&& !has_token(old(self)@.changes, tok, origin@)
                        &&& old(self)@.last_id < i64::MAX
                        &&& id == old(self)@.last_id + 1
                        &&& forall|o: Seq<char>| clock_covers(old(self)@, o) ==> #[trigger] clock_covers(final(self)@, o)
                        &&& final(self)@ == (EngineModel {
                            clock: c,
                            ..appended(
                                old(self)@,
                                table_name@,
                                row_id@,
                                op_type,
                                ref_json(columns),
                                ref_json(new_row),
                                ref_json(old_row),
                                tok,
                                origin@,
                            )
                        })
                    },
                    Err(e) => {
                        &&& final(self)@ == old(self)@
                        &&& (e is Store || e is State)
                        &&& (e is State <==> old(self)@.ready && (exhausted || !shape_ok(
                            op_type,
                            new_row is Some,
                        )))
                        &&& (e is Store <==> !old(self)@.ready || (!exhausted && shape_ok(
                            op_type,
                            new_row is Some,
                        ) && (has_token(old(self)@.changes, tok, origin@) || old(self)@.last_id
                            == i64::MAX)))
                    },
                }
            }),
    {
        if !self.ready {
            return Err(err_no_tables());
        }
        let (ms, ctr) = match self.tick(now_ms) {
            Some(c) => c,
            None => {
                return Err(SyncError::State("hlc counter exhausted".to_owned()));
            },
        };
        let hlc = format_hlc(ms, ctr, origin);
        let id = self.log_local_change(
            table_name,
            row_id,
            op_type,
            columns,
            new_row,
            old_row,
            hlc.as_str(),
            origin,
        )?;
        self.hlc_last_ms = ms;
        self.hlc_last_ctr = ctr;
        proof {
            assert forall|o: Seq<char>| clock_covers(old(self)@, o) implies #[trigger] clock_covers(
                self@,
                o,
            ) by {
                lemma_log_keeps_cover(
                    old(self)@,
                    table_name@,
                    row_id@,
                    op_type,
                    ref_json(columns),
                    ref_json(new_row),
                    ref_json(old_row),
                    origin@,
                    now_ms as int,
                    o,
                );
            }
        }
        Ok(id)
    }

    /// Records a local insert with a full-row snapshot, stamped with the next
    /// clock token.
    pub fn log_insert_fullrow(
        &mut self,
        table_name: &str,
        row_id: &str,
        new_row: &JsonValue,
        origin: &str,
    ) -> (r: Result<i64, SyncError>)
        requires
            old(self).wf(),
        ensures
            final(self).wf(),
            match r {
                Ok(id) => {
                    &&& id == old(self)@.last_id + 1
                    &&& forall|o: Seq<char>| clock_covers(old(self)@, o) ==> #[trigger] clock_covers(final(self)@, o)
                    &&& exists|now: int|
                        final(self)@ == #[trigger] log_outcome(
                            old(self)@,
                            table_name@,
                            row_id@,
                            OpType::Insert,
                            None,
                            Some(new_row@),
                            None,
                            origin@,
                            now,
                        )
                },
                Err(e) => final(self)@ == old(self)@ && (e is Store || e is State),
            },
            log_has_room(old(self)@, origin@) && is_object(new_row@) ==> r is Ok,
            !is_object(new_row@) ==> r matches Err(SyncError::State(_)),
            is_object(new_row@) && !old(self)@.ready ==> r matches Err(SyncError::Store(_)),
    {
        match new_row {
            JsonValue::Object(_) => {},
            JsonValue::Other(_) => {
                return Err(SyncError::State("new_row must be a JSON object".to_owned()));
            },
        }
        let now = now_millis();
        let r = self.log_change_at(table_name, row_id, OpType::Insert, None, Some(new_row), None, origin, now);
        proof {
            if log_has_room(old(self)@, origin@) {
                lemma_cover_token_free(old(self)@, origin@, now as int);
            }
            if r is Ok {
                assert(self@ == log_outcome(
                    old(self)@,
                    table_name@,
                    row_id@,
                    OpType::Insert,
                    ref_json(None),
                    ref_json(Some(new_row)),
                    ref_json(None),
                    origin@,
                    now as int,
                ));
            }
        }
        r
    }

    /// Records a local update; the changed columns and the snapshots are
    /// optional.
    pub fn log_update(
        &mut self,
        table_name: &str,
        row_id: &str,
        columns: Option<&JsonValue>,
        new_row: Option<&JsonValue>,
        old_row: Option<&JsonValue>,
        origin: &str,
    ) -> (r: Result<i64, SyncError>)
        requires
            old(self).wf(),
        ensures
            final(self).wf(),
            match r {
                Ok(id) => {
                    &&& id == old(self)@.last_id + 1
                    &&& forall|o: Seq<char>| clock_covers(old(self)@, o) ==> #[trigger] clock_covers(final(self)@, o)
                    &&& exists|now: int|
                        final(self)@ == #[trigger] log_outcome(
                            old(self)@,
                            table_name@,
                            row_id@,
                            OpType::Update,
                            ref_json(columns),
                            ref_json(new_row),
                            ref_json(old_row),
                            origin@,
                            now,
                        )
                },
                Err(e) => final(self)@ == old(self)@ && (e is Store || e is State),
            },
            log_has_room(old(self)@, origin@) ==> r is Ok,
            !old(self)@.ready ==> r matches Err(SyncError::Store(_)),
    {
        let now = now_millis();
        let r = self.log_change_at(table_name, row_id, OpType::Update, columns, new_row, old_row, origin, now);
        proof {
            if log_has_room(old(self)@, origin@) {
                lemma_cover_token_free(old(self)@, origin@, now as int);
            }
            if r is Ok {
                assert(self@ == log_outcome(
                    old(self)@,
                    table_name@,
                    row_id@,
                    OpType::Update,
                    ref_json(columns),
                    ref_json(new_row),
                    ref_json(old_row),
                    origin@,
                    now as int,
                ));
            }
        }
        r
    }

    /// Records a local delete, with no snapshots.
    pub fn log_delete(&mut self, table_name: &str, row_id: &str, origin: &str) -> (r: Result<
        i64,
        SyncError,
    >)
        requires
            old(self).wf(),
        ensures
            final(self).wf(),
            match r {
                Ok(id) => {
                    &&& id == old(self)@.last_id + 1
                    &&& forall|o: Seq<char>| clock_covers(old(self)@, o) ==> #[trigger] clock_covers(final(self)@, o)
                    &&& exists|now: int|
                        final(self)@ == #[trigger] log_outcome(
                            old(self)@,
                            table_name@,
                            row_id@,
                            OpType::Delete,
                            None,
                            None,
                            None,
                            origin@,
                            now,
                        )
                },
                Err(e) => final(self)@ == old(self)@ && (e is Store || e is State),
            },
            log_has_room(old(self)@, origin@) ==> r is Ok,
            !old(self)@.ready ==> r matches Err(SyncError::Store(_)),
    {
        let now = now_millis();
        let r = self.log_change_at(table_name, row_id, OpType::Delete, None, None, None, origin, now);
        proof {
            if log_has_room(old(self)@, origin@) {
                lemma_cover_token_free(old(self)@, origin@, now as int);
            }
            if r is Ok {
                assert(self@ == log_outcome(
                    old(self)@,
                    table_name@,
                    row_id@,
                    OpType::Delete,
                    ref_json(None),
                    ref_json(None),
                    ref_json(None),
                    origin@,
                    now as int,
                ));
            }
        }
        r
    }

    /// Up to `limit` pending changes (all of them when `limit` is negative),
    /// in ascending id order.
    pub fn get_pending_ops(&self, limit: i64) -> (r: Result<Vec<Change>, SyncError>)
        requires
            self.wf(),
        ensures
            match r {
                Ok(v) => self@.ready && v@.map_values(|c: Change| c@) == pending_batch(
                    self@.changes,
                    limit as int,
                ),
                Err(e) => !self@.ready && e is Store,
            },
    {
        if !self.ready {
            return Err(err_no_tables());
        }
        let ghost cs = self@.changes;
        let mut out: Vec<Change> = Vec::new();
        let mut i: usize = 0;
        while i < self.changes.len() && (limit < 0 || (out.len() as u64) < (limit as u64))
            invariant
                i <= self.changes.len(),
                cs == self@.changes,
                cs.len() == self.changes.len(),
                out@.map_values(|c: Change| c@) == pending_of(cs.subrange(0, i as int)),
                limit >= 0 ==> out.len() <= limit,
            decreases self.changes.len() - i,
        {
            assert(cs.subrange(0, i + 1).drop_last() =~= cs.subrange(0, i as int));
            assert(cs[i as int] == self.changes@[i as int]@);
            if self.changes[i].sync_status == SyncStatus::Pending {
                let c = self.changes[i].copy();
                let ghost prev = out@;
                out.push(c);
                assert(out@.map_values(|c: Change| c@) =~= prev.map_values(|c: Change| c@).push(
                    c@,
                ));
            }
            i = i + 1;
        }
        proof {
            lemma_pending_prefix(cs, i as int);
            if i == self.changes.len() {
                assert(cs.subrange(0, i as int) =~= cs);
            }
        }
        Ok(out)
    }

    fn is_listed(ids: &[i64], id: i64) -> (r: bool)
        ensures
            r == listed(ids@, id as int),
    {
        let mut j: usize = 0;
        while j < ids.len()
            invariant
                j <= ids.len(),
                forall|k: int| 0 <= k < j ==> ids@[k] != id,
            decreases ids.len() - j,
        {
            if ids[j] == id {
                return true;
            }
            j = j + 1;
        }
        false
    }

    fn mark_ops(&mut self, ids: &[i64], target: SyncStatus) -> (r: Result<(), SyncError>)
        requires
            old(self).wf(),
        ensures
            final(self).wf(),
            match r {
                Ok(_) => old(self)@.ready && final(self)@ == (EngineModel {
                    changes: marked(old(self)@.changes, ids@, target),
                    ..old(self)@
                }),
                Err(e) => !old(self)@.ready && e is Store && final(self)@ == old(self)@,
            },
    {
        if !self.ready {
            return Err(err_no_tables());
        }
        let ghost cs = old(self)@.changes;
        let mut i: usize = 0;
        while i < self.changes.len()
            invariant
                i <= self.changes.len(),
                cs.len() == self.changes.len(),
                self@ == (EngineModel { changes: self@.changes, ..old(self)@ }),
                forall|k: int|
                    0 <= k < i ==> #[trigger] self@.changes[k] == marked(cs, ids@, target)[k],
                forall|k: int| i <= k < cs.len() ==> #[trigger] self@.changes[k] == cs[k],
            decreases self.changes.len() - i,
        {
            let id = self.changes[i].change_id;
            if Self::is_listed(ids, id) {
                let cur = self.changes[i].sync_status;
                let next = match (cur, target) {
                    (SyncStatus::Pending, _) => target,
                    (SyncStatus::Pushed, SyncStatus::Acked) => SyncStatus::Acked,
                    _ => cur,
                };
                let mut c = self.changes[i].copy();
                c.sync_status = next;
                let ghost before = self@.changes;
                proof {
                    assert(before[i as int] == cs[i as int]);
                    assert(listed(ids@, cs[i as int].change_id));
                    assert(c@ == marked(cs, ids@, target)[i as int]);
                }
                self.changes.set(i, c);
                proof {
                    assert(self@.changes =~= before.update(i as int, c@));
                }
            } else {
                proof {
                    assert(self@.changes[i as int] == cs[i as int]);
                    assert(!listed(ids@, cs[i as int].change_id));
                }
            }
            i = i + 1;
        }
        proof {
            assert(self@.changes =~= marked(cs, ids@, target));
        }
        Ok(())
    }

    /// Moves every listed pending change to `Pushed`; ids that match no change,
    /// and changes already pushed or acked, are left alone.
    pub fn mark_ops_pushed(&mut self, ids: &[i64]) -> (r: Result<(), SyncError>)
        requires
            old(self).wf(),
        ensures
            final(self).wf(),
            match r {
                Ok(_) => old(self)@.ready && final(self)@ == (EngineModel {
                    changes: marked(old(self)@.changes, ids@, SyncStatus::Pushed),
                    ..old(self)@
                }),
                Err(e) => !old(self)@.ready && e is Store && final(self)@ == old(self)@,
            },
    {
        self.mark_ops(ids, SyncStatus::Pushed)
    }

    /// Moves every listed change to `Acked`; ids that match no change are
    /// ignored.
    pub fn mark_ops_acked(&mut self, ids: &[i64]) -> (r: Result<(), SyncError>)
        requires
            old(self).wf(),
        ensures
            final(self).wf(),
            match r {
                Ok(_) => old(self)@.ready && final(self)@ == (EngineModel {
                    changes: marked(old(self)@.changes, ids@, SyncStatus::Acked),
                    ..old(self)@
                }),
                Err(e) => !old(self)@.ready && e is Store && final(self)@ == old(self)@,
            },
    {
        self.mark_ops(ids, SyncStatus::Acked)
    }

    /// The last remote cursor stored, if any.
    pub fn get_remote_cursor(&self) -> (r: Result<Option<String>, SyncError>)
        requires
            self.wf(),
        ensures
            match r {
                Ok(c) => self@.ready && match c {
                    Some(s) => self@.cursor == Some(s@),
                    None => self@.cursor is None,
                },
                Err(e) => !self@.ready && e is Store,
            },
    {
        if !self.ready {
            return Err(err_no_tables());
        }
        match &self.remote_cursor {
            Some(c) => Ok(Some(c.clone())),
            None => Ok(None),
        }
    }

    /// Stores `cursor` as the remote cursor.
    pub fn set_remote_cursor(&mut self, cursor: &str) -> (r: Result<(), SyncError>)
        requires
            old(self).wf(),
        ensures
            final(self).wf(),
            match r {
                Ok(_) => old(self)@.ready && final(self)@ == (EngineModel {
                    cursor: Some(cursor@),
                    ..old(self)@
                }),
                Err(e) => !old(self)@.ready && e is Store && final(self)@ == old(self)@,
            },
    {
        if !self.ready {
            return Err(err_no_tables());
        }
        self.remote_cursor = Some(cursor.to_owned());
        Ok(())
    }

    /// The stored schema version.
    pub fn get_schema_version(&self) -> (r: Result<i32, SyncError>)
        requires
            self.wf(),
        ensures
            match r {
                Ok(v) => self@.ready && v as int == self@.schema_version,
                Err(e) => !self@.ready && e is Store,
            },
    {
        if !self.ready {
            return Err(err_no_tables());
        }
        Ok(self.schema_version)
    }

    /// Advances the schema version to `target_version`; a target at or below
    /// the current version changes nothing, and a target below 1 is refused.
    pub fn run_migrations(&mut self, target_version: i32) -> (r: Result<(), SyncError>)
        requires
            old(self).wf(),
        ensures
            final(self).wf(),
            match r {
                Ok(_) => {
                    &&& target_version >= 1
                    &&& old(self)@.ready
                    &&& final(self)@ == (EngineModel {
                        schema_version: if target_version > old(self)@.schema_version {
                            target_version as int
                        } else {
                            old(self)@.schema_version
                        },
                        ..old(self)@
                    })
                },
                Err(e) => {
                    &&& final(self)@ == old(self)@
                    &&& (e is Store || e is State)
                    &&& (e is State <==> target_version < 1)
                    &&& (e is Store <==> target_version >= 1 && !old(self)@.ready)
                },
            },
    {
        if target_version < 1 {
            return Err(SyncError::State("invalid target_version".to_owned()));
        }
        let current = self.get_schema_version()?;
        if current >= target_version {
            return Ok(());
        }
        self.schema_version = target_version;
        Ok(())
    }
    fn registry_has(&self, id: &String) -> (r: bool)
        requires
            self.wf(),
        ensures
            r == applied_ids(self@).contains(id@),
    {
        let ghost reg = applied_ids(self@);
        let mut j: usize = 0;
        while j < self.applied.len()
            invariant
                j <= self.applied.len(),
                reg == applied_ids(self@),
                reg.len() == self.applied.len(),
                forall|k: int| 0 <= k < j ==> reg[k] != id@,
            decreases self.applied.len() - j,
        {
            assert(reg[j as int] == self.applied@[j as int].remote_id@);
            if self.applied[j].remote_id == *id {
                return true;
            }
            j = j + 1;
        }
        false
    }

    fn seen_earlier(ops: &[RemoteOp], i: usize) -> (r: bool)
        requires
            i < ops.len(),
        ensures
            r == remote_ids(ops@).subrange(0, i as int).contains(ops@[i as int].remote_id@),
    {
        let ghost ids = remote_ids(ops@).subrange(0, i as int);
        let mut j: usize = 0;
        while j < i
            invariant
                j <= i < ops.len(),
                ids == remote_ids(ops@).subrange(0, i as int),
                forall|k: int| 0 <= k < j ==> ids[k] != ops@[i as int].remote_id@,
            decreases i - j,
        {
            assert(ids[j as int] == ops@[j as int].remote_id@);
            if ops[j].remote_id == ops[i].remote_id {
                return true;
            }
            j = j + 1;
        }
        false
    }

    /// The positions in `ops` of the ops the applier must see, in order: those
    /// whose remote id is not in the registry, each id at its first occurrence.
    pub fn plan_remote_ops(&self, ops: &[RemoteOp]) -> (r: Vec<usize>)
        requires
            self.wf(),
        ensures
            forall|k: int| 0 <= k < r.len() ==> #[trigger] r@[k] < ops.len(),
            forall|k: int, l: int| 0 <= k < l < r.len() ==> #[trigger] r@[k] < #[trigger] r@[l],
            r@.map_values(|p: usize| ops@[p as int].remote_id@) == fresh_ids(
                remote_ids(ops@),
                applied_ids(self@),
            ),
            r@.map_values(|p: usize| ops@[p as int]) == planned_ops(ops@, applied_ids(self@)),
    {
        let ghost reg = applied_ids(self@);
        let ghost all = remote_ids(ops@);
        let mut plan: Vec<usize> = Vec::new();
        let mut i: usize = 0;
        while i < ops.len()
            invariant
                i <= ops.len(),
                reg == applied_ids(self@),
                all == remote_ids(ops@),
                self.wf(),
                forall|k: int| 0 <= k < plan.len() ==> #[trigger] plan@[k] < i,
                forall|k: int, l: int|
                    0 <= k < l < plan.len() ==> #[trigger] plan@[k] < #[trigger] plan@[l],
                plan@.map_values(|p: usize| ops@[p as int].remote_id@) == fresh_ids(
                    all.subrange(0, i as int),
                    reg,
                ),
                plan@.map_values(|p: usize| ops@[p as int]) == planned_ops(
                    ops@.subrange(0, i as int),
                    reg,
                ),
            decreases ops.len() - i,
        {
            let ghost pre = all.subrange(0, i + 1);
            assert(pre.drop_last() =~= all.subrange(0, i as int));
            assert(pre.last() == ops@[i as int].remote_id@);
            assert(ops@.subrange(0, i + 1).drop_last() =~= ops@.subrange(0, i as int));
            assert(remote_ids(ops@.subrange(0, i as int)) =~= all.subrange(0, i as int));
            let fresh = !self.registry_has(&ops[i].remote_id) && !Self::seen_earlier(ops, i);
            if fresh {
                let ghost before = plan@;
                plan.push(i);
                assert(plan@.map_values(|p: usize| ops@[p as int].remote_id@) =~= before.map_values(
                    |p: usize| ops@[p as int].remote_id@,
                ).push(ops@[i as int].remote_id@));
                assert(plan@.map_values(|p: usize| ops@[p as int]) =~= before.map_values(
                    |p: usize| ops@[p as int],
                ).push(ops@[i as int]));
            }
            i = i + 1;
        }
        assert(all.subrange(0, ops.len() as int) =~= all);
        assert(ops@.subrange(0, ops.len() as int) =~= ops@);
        plan
    }

    /// Applies a batch of remote ops atomically and at most once per remote id.
    /// The applier is called, with `tx`, on each op whose remote id is new (see
    /// `plan_remote_ops`), in order; if every call succeeds, those ids enter the
    /// registry together. If a call fails, no further op is handed over, its
    /// error is returned and the store is left exactly as it was; rolling back
    /// `tx` is then the caller's part. The contract records the calls as an
    /// `applier_trace` over `planned_ops`.
    /// The engine is borrowed mutably for the whole call, so the applier cannot
    /// re-enter it.
    pub fn apply_remote_ops<T, A: ApplyDomainOp<T>>(
        &mut self,
        ops: &[RemoteOp],
        applier: &A,
        tx: &mut T,
    ) -> (r: Result<(), SyncError>)
        requires
            old(self).wf(),
        ensures
            final(self).wf(),
            match r {
                Ok(_) => {
                    &&& old(self)@.ready
                    &&& applied_ids(final(self)@) == applied_ids(old(self)@) + fresh_ids(
                        remote_ids(ops@),
                        applied_ids(old(self)@),
                    )
                    &&& old(self)@.applied == final(self)@.applied.subrange(
                        0,
                        old(self)@.applied.len() as int,
                    )
                    &&& final(self)@ == (EngineModel { applied: final(self)@.applied, ..old(self)@ })
                },
                Err(_) => final(self)@ == old(self)@,
            },
            !old(self)@.ready ==> (r matches Err(SyncError::Store(_))) && *final(tx) == *old(tx),
            old(self)@.ready && fresh_ids(remote_ids(ops@), applied_ids(old(self)@)).len() == 0
                ==> r is Ok,
            old(self)@.ready ==> exists|txs: Seq<T>, rs: Seq<Result<(), SyncError>>|
                #[trigger] applier_trace(
                    *applier,
                    planned_ops(ops@, applied_ids(old(self)@)),
                    txs,
                    rs,
                ) && txs[0] == *old(tx) && txs.last() == *final(tx) && match r {
                    Ok(_) => rs.len() == planned_ops(ops@, applied_ids(old(self)@)).len() && (
                    rs.len() > 0 ==> rs.last() is Ok),
                    Err(e) => rs.len() > 0 && rs.last() == Err::<(), SyncError>(e),
                },
    {
        if !self.ready {
            return Err(err_no_tables());
        }
        let plan = self.plan_remote_ops(ops);
        let ghost planned = planned_ops(ops@, applied_ids(self@));
        let ghost tx0 = *tx;
        let ghost mut txs: Seq<T> = seq![*tx];
        let ghost mut rs: Seq<Result<(), SyncError>> = Seq::empty();
        let ghost fresh = fresh_ids(remote_ids(ops@), applied_ids(self@));
        assert(plan@.map_values(|p: usize| ops@[p as int].remote_id@).len() == plan.len());
        let mut staged: Vec<AppliedOp> = Vec::new();
        let mut k: usize = 0;
        while k < plan.len()
            invariant
                k <= plan.len(),
                self@ == old(self)@,
                self.wf(),
                self@.ready,
                fresh == fresh_ids(remote_ids(ops@), applied_ids(old(self)@)),
                plan.len() == fresh.len(),
                forall|q: int| 0 <= q < plan.len() ==> #[trigger] plan@[q] < ops.len(),
                plan@.map_values(|p: usize| ops@[p as int].remote_id@) == fresh,
                plan@.map_values(|p: usize| ops@[p as int]) == planned,
                planned == planned_ops(ops@, applied_ids(old(self)@)),
                applier_trace(*applier, planned, txs, rs),
                rs.len() == k,
                forall|q: int| 0 <= q < k ==> (#[trigger] rs[q]) is Ok,
                txs[0] == tx0,
                tx0 == *old(tx),
                txs.last() == *tx,
                staged.len() == k,
                forall|q: int|
                    0 <= q < k ==> (#[trigger] staged@[q]).remote_id@ == fresh[q],
            decreases plan.len() - k,
        {
            let op = &ops[plan[k]];
            assert(*op == planned[k as int]);
            let res = applier.apply(tx, op);
            proof {
                let ntxs = txs.push(*tx);
                let nrs = rs.push(res);
                assert forall|j: int| 0 <= j < nrs.len() implies #[trigger] applier.applies(
                    ntxs[j],
                    planned[j],
                    ntxs[j + 1],
                    nrs[j],
                ) by {
                    if j < rs.len() {
                        assert(ntxs[j] == txs[j] && ntxs[j + 1] == txs[j + 1] && nrs[j] == rs[j]);
                    }
                }
                assert forall|j: int| 0 <= j < nrs.len() - 1 implies (#[trigger] nrs[j]) is Ok by {
                    assert(nrs[j] == rs[j]);
                }
                txs = ntxs;
                rs = nrs;
            }
            match res {
                Ok(()) => {},
                Err(e) => {
                    assert(applier_trace(*applier, planned, txs, rs));
                    return Err(e);
                },
            }
            let entry = AppliedOp { remote_id: op.remote_id.clone(), applied_ms: now_millis() };
            staged.push(entry);
            k = k + 1;
        }
        let ghost before = self@;
        let mut q: usize = 0;
        while q < staged.len()
            invariant
                q <= staged.len(),
                staged.len() == fresh.len(),
                forall|t: int| 0 <= t < staged.len() ==> (#[trigger] staged@[t]).remote_id@ == fresh[t],
                self@ == (EngineModel { applied: self@.applied, ..before }),
                self@.applied.len() == before.applied.len() + q,
                before.applied == self@.applied.subrange(0, before.applied.len() as int),
                applied_ids(self@) == applied_ids(before) + fresh.subrange(0, q as int),
            decreases staged.len() - q,
        {
            let e = AppliedOp { remote_id: staged[q].remote_id.clone(), applied_ms: staged[q].applied_ms };
            let ghost prev = self@;
            self.applied.push(e);
            proof {
                assert(self@.applied =~= prev.applied.push((e.remote_id@, e.applied_ms as int)));
                assert(applied_ids(self@) =~= applied_ids(prev).push(fresh[q as int]));
                assert(fresh.subrange(0, q + 1) =~= fresh.subrange(0, q as int).push(fresh[q as int]));
                assert(self@.applied.subrange(0, before.applied.len() as int) =~= prev.applied.subrange(
                    0,
                    before.applied.len() as int,
                ));
            }
            q = q + 1;
        }
        proof {
            assert(applier_trace(*applier, planned, txs, rs));
            assert(fresh.subrange(0, fresh.len() as int) =~= fresh);
            lemma_fresh_ids(remote_ids(ops@), applied_ids(before));
            let m = self@;
            let reg = applied_ids(m);
            assert forall|i: int, j: int|
                0 <= i < m.applied.len() && 0 <= j < m.applied.len() && i != j implies #[trigger] m.applied[i].0
                != #[trigger] m.applied[j].0 by {
                assert(reg[i] == m.applied[i].0);
                assert(reg[j] == m.applied[j].0);
                let n = before.applied.len() as int;
                if i < n && j < n {
                    assert(m.applied[i] == before.applied[i]);
                    assert(m.applied[j] == before.applied[j]);
                } else if i >= n && j >= n {
                    assert(reg[i] == fresh[i - n]);
                    assert(reg[j] == fresh[j - n]);
                } else if i < n {
                    assert(reg[j] == fresh[j - n]);
                    assert(fresh.contains(reg[j]));
                    assert(applied_ids(before)[i] == reg[i]);
                } else {
                    assert(reg[i] == fresh[i - n]);
                    assert(fresh.contains(reg[i]));
                    assert(applied_ids(before)[j] == reg[j]);
                }
            }
        }
        Ok(())
    }
    /// Whether `remote_id` is in the applied-remote registry.
    pub fn is_applied(&self, remote_id: &str) -> (r: bool)
        requires
            self.wf(),
        ensures
            r == applied_ids(self@).contains(remote_id@),
    {
        self.registry_has(&remote_id.to_owned())
    }

    /// The change with id `change_id`, whatever its status.
    pub fn get_change(&self, change_id: i64) -> (r: Option<Change>)
        requires
            self.wf(),
        ensures
            match r {
                Some(c) => exists|i: int|
                    0 <= i < self@.changes.len() && #[trigger] self@.changes[i] == c@
                        && c.change_id == change_id,
                None => forall|i: int|
                    0 <= i < self@.changes.len() ==> #[trigger] self@.changes[i].change_id
                        != change_id,
            },
    {
        let ghost cs = self@.changes;
        let mut i: usize = 0;
        while i < self.changes.len()
            invariant
                i <= self.changes.len(),
                cs == self@.changes,
                cs.len() == self.changes.len(),
                forall|k: int| 0 <= k < i ==> #[trigger] cs[k].change_id != change_id,
            decreases self.changes.len() - i,
        {
            assert(cs[i as int] == self.changes@[i as int]@);
            if self.changes[i].change_id == change_id {
                return Some(self.changes[i].copy());
            }
            i = i + 1;
        }
        None
    }
    /// The state of the store as plain values.
    pub fn export(&self) -> (r: EngineParts)
        requires
            self.wf(),
        ensures
            parts_model(r) == (EngineModel { ready: true, ..self@ }),
    {
        let mut changes: Vec<Change> = Vec::new();
        let mut i: usize = 0;
        while i < self.changes.len()
            invariant
                i <= self.changes.len(),
                changes.len() == i,
                forall|k: int| 0 <= k < i ==> (#[trigger] changes@[k])@ == self.changes@[k]@,
            decreases self.changes.len() - i,
        {
            changes.push(self.changes[i].copy());
            i = i + 1;
        }
        let mut applied: Vec<AppliedOp> = Vec::new();
        let mut j: usize = 0;
        while j < self.applied.len()
            invariant
                j <= self.applied.len(),
                applied.len() == j,
                forall|k: int|
                    0 <= k < j ==> (#[trigger] applied@[k]).remote_id@ == self.applied@[k].remote_id@
                        && applied@[k].applied_ms == self.applied@[k].applied_ms,
            decreases self.applied.len() - j,
        {
            applied.push(
                AppliedOp {
                    remote_id: self.applied[j].remote_id.clone(),
                    applied_ms: self.applied[j].applied_ms,
                },
            );
            j = j + 1;
        }
        let remote_cursor = match &self.remote_cursor {
            Some(c) => Some(c.clone()),
            None => None,
        };
        let r = EngineParts {
            changes,
            last_change_id: self.last_change_id,
            applied,
            hlc_last_ms: self.hlc_last_ms,
            hlc_last_ctr: self.hlc_last_ctr,
            remote_cursor,
            schema_version: self.schema_version,
        };
        assert(parts_model(r).changes =~= self@.changes);
        assert(parts_model(r).applied =~= self@.applied);
        r
    }

    /// A store holding `parts`, whose tables exist; refused with `State` when
    /// the parts break an invariant of the store.
    pub fn restore(parts: EngineParts) -> (r: Result<SyncEngine, SyncError>)
        ensures
            match r {
                Ok(e) => e.wf() && e@ == parts_model(parts),
                Err(e) => e is State && !model_wf(parts_model(parts)),
            },
    {
        let ghost m = parts_model(parts);
        if parts.hlc_last_ms < 0 || parts.hlc_last_ctr < 0 || parts.last_change_id < 0
            || parts.schema_version < 1 {
            return Err(SyncError::State("clock, id or version out of range".to_owned()));
        }
        let n = parts.changes.len();
        let mut i: usize = 0;
        while i < n
            invariant
                i <= n,
                n == parts.changes.len(),
                m == parts_model(parts),
                m.changes.len() == n,
                forall|k: int| 0 <= k < i ==> 0 < #[trigger] m.changes[k].change_id <= m.last_id,
                forall|k: int| 0 <= k < i ==> shape_ok(#[trigger] m.changes[k].op_type, m.changes[k].new_row is Some),
                forall|k: int, l: int|
                    0 <= k < l < i ==> #[trigger] m.changes[k].change_id < #[trigger] m.changes[l].change_id,
            decreases n - i,
        {
            let c = &parts.changes[i];
            assert(m.changes[i as int] == c@);
            let has_new = match c.new_row {
                Some(_) => true,
                None => false,
            };
            let shape = match c.op_type {
                OpType::Insert => has_new,
                OpType::Delete => !has_new,
                OpType::Update => true,
            };
            if c.change_id <= 0 || c.change_id > parts.last_change_id || !shape {
                assert(!model_wf(m)) by {
                    if model_wf(m) {
                        assert(0 < m.changes[i as int].change_id <= m.last_id);
                        assert(shape_ok(m.changes[i as int].op_type, m.changes[i as int].new_row is Some));
                    }
                }
                return Err(SyncError::State("change out of range or malformed".to_owned()));
            }
            if i > 0 && parts.changes[i - 1].change_id >= c.change_id {
                assert(m.changes[i - 1] == parts.changes@[i - 1]@);
                assert(!model_wf(m)) by {
                    if model_wf(m) {
                        assert(m.changes[i - 1].change_id < m.changes[i as int].change_id);
                    }
                }
                return Err(SyncError::State("change ids out of order".to_owned()));
            }
            proof {
                if i > 0 {
                    assert(m.changes[i - 1] == parts.changes@[i - 1]@);
                    assert forall|k: int| 0 <= k < i implies m.changes[k].change_id
                        < m.changes[i as int].change_id by {
                        if k < i - 1 {
                            assert(m.changes[k].change_id < m.changes[i - 1].change_id);
                        }
                    }
                }
            }
            i = i + 1;
        }
        let mut a: usize = 0;
        while a < n
            invariant
                a <= n,
                n == parts.changes.len(),
                m == parts_model(parts),
                m.changes.len() == n,
                forall|k: int, l: int|
                    0 <= k < a && 0 <= l < n && k != l ==> !(#[trigger] m.changes[k].hlc
                        == #[trigger] m.changes[l].hlc && m.changes[k].origin == m.changes[l].origin),
            decreases n - a,
        {
            let mut b: usize = 0;
            while b < n
                invariant
                    a < n,
                    b <= n,
                    n == parts.changes.len(),
                    m == parts_model(parts),
                    m.changes.len() == n,
                    forall|k: int, l: int|
                        0 <= k < a && 0 <= l < n && k != l ==> !(#[trigger] m.changes[k].hlc
                            == #[trigger] m.changes[l].hlc && m.changes[k].origin
                            == m.changes[l].origin),
                    forall|l: int|
                        0 <= l < b && a != l ==> !(m.changes[a as int].hlc == #[trigger] m.changes[l].hlc
                            && m.changes[a as int].origin == m.changes[l].origin),
                decreases n - b,
            {
                assert(m.changes[a as int] == parts.changes@[a as int]@);
                assert(m.changes[b as int] == parts.changes@[b as int]@);
                if a != b && parts.changes[a].hlc == parts.changes[b].hlc && parts.changes[a].origin
                    == parts.changes[b].origin {
                    assert(!model_wf(m)) by {
                        if model_wf(m) {
                            assert(!(m.changes[a as int].hlc == m.changes[b as int].hlc
                                && m.changes[a as int].origin == m.changes[b as int].origin));
                        }
                    }
                    return Err(SyncError::State("duplicate (hlc, origin)".to_owned()));
                }
                b = b + 1;
            }
            a = a + 1;
        }
        let na = parts.applied.len();
        let mut x: usize = 0;
        while x < na
            invariant
                x <= na,
                na == parts.applied.len(),
                m == parts_model(parts),
                m.applied.len() == na,
                forall|k: int, l: int|
                    0 <= k < x && 0 <= l < na && k != l ==> #[trigger] m.applied[k].0
                        != #[trigger] m.applied[l].0,
            decreases na - x,
        {
            let mut y: usize = 0;
            while y < na
                invariant
                    x < na,
                    y <= na,
                    na == parts.applied.len(),
                    m == parts_model(parts),
                    m.applied.len() == na,
                    forall|k: int, l: int|
                        0 <= k < x && 0 <= l < na && k != l ==> #[trigger] m.applied[k].0
                            != #[trigger] m.applied[l].0,
                    forall|l: int|
                        0 <= l < y && x != l ==> m.applied[x as int].0 != #[trigger] m.applied[l].0,
                decreases na - y,
            {
                assert(m.applied[x as int].0 == parts.applied@[x as int].remote_id@);
                assert(m.applied[y as int].0 == parts.applied@[y as int].remote_id@);
                if x != y && parts.applied[x].remote_id == parts.applied[y].remote_id {
                    assert(!model_wf(m)) by {
                        if model_wf(m) {
                            assert(m.applied[x as int].0 != m.applied[y as int].0);
                        }
                    }
                    return Err(SyncError::State("duplicate remote id".to_owned()));
                }
                y = y + 1;
            }
            x = x + 1;
        }
        let e = SyncEngine {
            ready: true,
            changes: parts.changes,
            last_change_id: parts.last_change_id,
            applied: parts.applied,
            hlc_last_ms: parts.hlc_last_ms,
            hlc_last_ctr: parts.hlc_last_ctr,
            remote_cursor: parts.remote_cursor,
            schema_version: parts.schema_version,
        };
        Ok(e)
    }
}

} // verus!
