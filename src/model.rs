//! The mathematical model of the store: its state, its invariants, what each
//! operation makes of it, and the laws that follow.

use vstd::prelude::*;

use crate::hlc::{hlc_advance, hlc_parse, hlc_ticks, hlc_token, lemma_token_parse};
use crate::json::{JsonModel, JsonValue};
use crate::types::{AppliedOp, Change, ChangeModel, OpType, RemoteOp, SyncStatus, status_rank};

verus! {

/// The state of the store that the engine owns: the oplog, the applied-remote
/// registry and the metadata.
pub struct EngineModel {
    /// The engine's tables exist.
    pub ready: bool,
    /// Local changes in insertion order.
    pub changes: Seq<ChangeModel>,
    /// The last change id handed out (ids are never reused).
    pub last_id: int,
    /// `(remote_id, applied_ms)` of every remote op applied so far.
    pub applied: Seq<(Seq<char>, int)>,
    /// The last `(ms, counter)` the clock emitted.
    pub clock: (int, int),
    pub cursor: Option<Seq<char>>,
    pub schema_version: int,
}

/// `new_row` is present for an insert and absent for a delete.
pub open spec fn shape_ok(op: OpType, has_new_row: bool) -> bool {
    match op {
        OpType::Insert => has_new_row,
        OpType::Delete => !has_new_row,
        OpType::Update => true,
    }
}

pub open spec fn has_token(changes: Seq<ChangeModel>, hlc: Seq<char>, origin: Seq<char>) -> bool {
    exists|i: int| 0 <= i < changes.len() && changes[i].hlc == hlc && changes[i].origin == origin
}

pub open spec fn applied_ids(m: EngineModel) -> Seq<Seq<char>> {
    m.applied.map_values(|e: (Seq<char>, int)| e.0)
}

/// The invariants of the store.
pub open spec fn model_wf(m: EngineModel) -> bool {
    &&& 0 <= m.clock.0 <= i64::MAX
    &&& 0 <= m.clock.1 <= i64::MAX
    &&& 0 <= m.last_id <= i64::MAX
    &&& 1 <= m.schema_version <= i32::MAX
    &&& forall|i: int| 0 <= i < m.changes.len() ==> 0 < #[trigger] m.changes[i].change_id <= m.last_id
    &&& forall|i: int, j: int|
        0 <= i < j < m.changes.len() ==> #[trigger] m.changes[i].change_id
            < #[trigger] m.changes[j].change_id
    &&& forall|i: int, j: int|
        0 <= i < m.changes.len() && 0 <= j < m.changes.len() && i != j ==> !(
        #[trigger] m.changes[i].hlc == #[trigger] m.changes[j].hlc && m.changes[i].origin
            == m.changes[j].origin)
    &&& forall|i: int|
        0 <= i < m.changes.len() ==> shape_ok(
            #[trigger] m.changes[i].op_type,
            m.changes[i].new_row is Some,
        )
    &&& forall|i: int, j: int|
        0 <= i < m.applied.len() && 0 <= j < m.applied.len() && i != j ==> #[trigger] m.applied[i].0
            != #[trigger] m.applied[j].0
}

/// The store after appending a new pending change with id `last_id + 1`.
pub open spec fn appended(
    m: EngineModel,
    table_name: Seq<char>,
    row_id: Seq<char>,
    op_type: OpType,
    columns: Option<JsonModel>,
    new_row: Option<JsonModel>,
    old_row: Option<JsonModel>,
    hlc: Seq<char>,
    origin: Seq<char>,
) -> EngineModel {
    EngineModel {
        changes: m.changes.push(
            ChangeModel {
                change_id: m.last_id + 1,
                table_name,
                row_id,
                op_type,
                columns,
                new_row,
                old_row,
                hlc,
                origin,
                sync_status: SyncStatus::Pending,
            },
        ),
        last_id: m.last_id + 1,
        ..m
    }
}

pub open spec fn ref_json(o: Option<&JsonValue>) -> Option<JsonModel> {
    match o {
        Some(v) => Some(v@),
        None => None,
    }
}

/// The store after a change is appended with the next clock token at time
/// `now`, and the clock has advanced to that token.
pub open spec fn log_outcome(
    m: EngineModel,
    table_name: Seq<char>,
    row_id: Seq<char>,
    op_type: OpType,
    columns: Option<JsonModel>,
    new_row: Option<JsonModel>,
    old_row: Option<JsonModel>,
    origin: Seq<char>,
    now: int,
) -> EngineModel {
    let c = hlc_advance(m.clock.0, m.clock.1, now);
    EngineModel {
        clock: c,
        ..appended(
            m,
            table_name,
            row_id,
            op_type,
            columns,
            new_row,
            old_row,
            hlc_token(c.0, c.1, origin),
            origin,
        )
    }
}

/// `(ms, ctr)` pair `a` is later than `b`.
pub open spec fn pair_after(a: (int, int), b: (int, int)) -> bool {
    a.0 > b.0 || (a.0 == b.0 && a.1 > b.1)
}

/// No change of `origin` carries a token later than the clock, so no token the
/// clock emits next can be taken by one of them.
pub open spec fn clock_covers(m: EngineModel, origin: Seq<char>) -> bool {
    forall|i: int|
        0 <= i < m.changes.len() && (#[trigger] m.changes[i]).origin == origin ==> !pair_after(
            (hlc_parse(m.changes[i].hlc).0, hlc_parse(m.changes[i].hlc).1),
            m.clock,
        )
}

/// A change logged on `m` with the wall clock cannot fail, whatever the clock
/// reads: the tables exist, ids and the counter have room, and no change of
/// `origin` is stamped later than the clock.
pub open spec fn log_has_room(m: EngineModel, origin: Seq<char>) -> bool {
    &&& m.ready
    &&& m.last_id < i64::MAX
    &&& m.clock.1 < i64::MAX
    &&& clock_covers(m, origin)
}

/// Logging a change keeps every origin covered by the clock.
pub proof fn lemma_log_keeps_cover(
    m: EngineModel,
    table_name: Seq<char>,
    row_id: Seq<char>,
    op_type: OpType,
    columns: Option<JsonModel>,
    new_row: Option<JsonModel>,
    old_row: Option<JsonModel>,
    origin: Seq<char>,
    now: int,
    o: Seq<char>,
)
    requires
        model_wf(m),
        hlc_ticks(m.clock.0, m.clock.1, now),
        now <= i64::MAX,
        clock_covers(m, o),
    ensures
        clock_covers(
            log_outcome(m, table_name, row_id, op_type, columns, new_row, old_row, origin, now),
            o,
        ),
{
    let n = log_outcome(m, table_name, row_id, op_type, columns, new_row, old_row, origin, now);
    let c = n.clock;
    lemma_token_parse(c.0, c.1, origin);
    assert forall|i: int|
        0 <= i < n.changes.len() && (#[trigger] n.changes[i]).origin == o implies !pair_after(
        (hlc_parse(n.changes[i].hlc).0, hlc_parse(n.changes[i].hlc).1),
        n.clock,
    ) by {
        if i < m.changes.len() {
            assert(n.changes[i] == m.changes[i]);
        }
    }
}

/// Under `clock_covers`, the next token of the clock is not taken.
pub proof fn lemma_cover_token_free(m: EngineModel, origin: Seq<char>, now: int)
    requires
        model_wf(m),
        clock_covers(m, origin),
        hlc_ticks(m.clock.0, m.clock.1, now),
        now <= i64::MAX,
    ensures
        ({
            let c = hlc_advance(m.clock.0, m.clock.1, now);
            !has_token(m.changes, hlc_token(c.0, c.1, origin), origin)
        }),
{
    let c = hlc_advance(m.clock.0, m.clock.1, now);
    lemma_token_parse(c.0, c.1, origin);
    if has_token(m.changes, hlc_token(c.0, c.1, origin), origin) {
        let i = choose|i: int|
            0 <= i < m.changes.len() && m.changes[i].hlc == hlc_token(c.0, c.1, origin)
                && m.changes[i].origin == origin;
        assert(m.changes[i].origin == origin);
    }
}

/// The pending changes of `cs`, in order.
pub open spec fn pending_of(cs: Seq<ChangeModel>) -> Seq<ChangeModel>
    decreases cs.len(),
{
    if cs.len() == 0 {
        Seq::empty()
    } else {
        let p = pending_of(cs.drop_last());
        if cs.last().sync_status == SyncStatus::Pending {
            p.push(cs.last())
        } else {
            p
        }
    }
}

/// The first `limit` pending changes (all of them when `limit` is negative).
pub open spec fn pending_batch(cs: Seq<ChangeModel>, limit: int) -> Seq<ChangeModel> {
    let p = pending_of(cs);
    if limit < 0 || limit >= p.len() {
        p
    } else {
        p.subrange(0, limit)
    }
}

/// Some entry of `ids` is `id`.
pub open spec fn listed(ids: Seq<i64>, id: int) -> bool {
    exists|j: int| 0 <= j < ids.len() && ids[j] as int == id
}

/// `s` moved forward to `target`, never back.
pub open spec fn promote(s: SyncStatus, target: SyncStatus) -> SyncStatus {
    if status_rank(target) > status_rank(s) {
        target
    } else {
        s
    }
}

/// `cs` with every change whose id is listed in `ids` moved forward to `target`.
pub open spec fn marked(cs: Seq<ChangeModel>, ids: Seq<i64>, target: SyncStatus) -> Seq<ChangeModel> {
    Seq::new(
        cs.len(),
        |i: int|
            if listed(ids, cs[i].change_id) {
                ChangeModel { sync_status: promote(cs[i].sync_status, target), ..cs[i] }
            } else {
                cs[i]
            },
    )
}

pub proof fn lemma_pending_prefix(cs: Seq<ChangeModel>, i: int)
    requires
        0 <= i <= cs.len(),
    ensures
        pending_of(cs.subrange(0, i)).len() <= pending_of(cs).len(),
        pending_of(cs).subrange(0, pending_of(cs.subrange(0, i)).len() as int) == pending_of(
            cs.subrange(0, i),
        ),
    decreases cs.len(),
{
    if i == cs.len() {
        assert(cs.subrange(0, i) =~= cs);
        assert(pending_of(cs).subrange(0, pending_of(cs).len() as int) =~= pending_of(cs));
    } else {
        let t = cs.drop_last();
        lemma_pending_prefix(t, i);
        assert(t.subrange(0, i) =~= cs.subrange(0, i));
        let k = pending_of(cs.subrange(0, i)).len() as int;
        assert(pending_of(cs).subrange(0, k) =~= pending_of(t).subrange(0, k));
    }
}

/// The remote ids of `ops`, in order.
pub open spec fn remote_ids(ops: Seq<RemoteOp>) -> Seq<Seq<char>> {
    ops.map_values(|o: RemoteOp| o.remote_id@)
}

/// The ids of `ids` that the applier must see, in order: each id that is not in
/// `registry`, at its first occurrence.
pub open spec fn fresh_ids(ids: Seq<Seq<char>>, registry: Seq<Seq<char>>) -> Seq<Seq<char>>
    decreases ids.len(),
{
    if ids.len() == 0 {
        Seq::empty()
    } else {
        let p = fresh_ids(ids.drop_last(), registry);
        if registry.contains(ids.last()) || ids.drop_last().contains(ids.last()) {
            p
        } else {
            p.push(ids.last())
        }
    }
}

/// The ops of `ops` that the applier must see, in order: each op whose remote
/// id is not in `registry`, at the first occurrence of that id.
pub open spec fn planned_ops(ops: Seq<RemoteOp>, registry: Seq<Seq<char>>) -> Seq<RemoteOp>
    decreases ops.len(),
{
    if ops.len() == 0 {
        Seq::empty()
    } else {
        let p = planned_ops(ops.drop_last(), registry);
        let x = ops.last().remote_id@;
        if registry.contains(x) || remote_ids(ops.drop_last()).contains(x) {
            p
        } else {
            p.push(ops.last())
        }
    }
}

/// The remote ids of the planned ops are the fresh ids of the batch.
pub proof fn lemma_planned_ids(ops: Seq<RemoteOp>, registry: Seq<Seq<char>>)
    ensures
        remote_ids(planned_ops(ops, registry)) == fresh_ids(remote_ids(ops), registry),
    decreases ops.len(),
{
    if ops.len() > 0 {
        lemma_planned_ids(ops.drop_last(), registry);
        assert(remote_ids(ops).drop_last() =~= remote_ids(ops.drop_last()));
        let p = planned_ops(ops.drop_last(), registry);
        assert(remote_ids(p.push(ops.last())) =~= remote_ids(p).push(ops.last().remote_id@));
    } else {
        assert(remote_ids(ops) =~= Seq::<Seq<char>>::empty());
        assert(remote_ids(Seq::<RemoteOp>::empty()) =~= Seq::<Seq<char>>::empty());
    }
}

/// The fresh ids of a batch are ids of the batch, new to the registry, and
/// pairwise distinct.
pub proof fn lemma_fresh_ids(ids: Seq<Seq<char>>, registry: Seq<Seq<char>>)
    ensures
        fresh_ids(ids, registry).no_duplicates(),
        forall|x: Seq<char>| #[trigger]
            fresh_ids(ids, registry).contains(x) ==> ids.contains(x) && !registry.contains(x),
    decreases ids.len(),
{
    if ids.len() > 0 {
        let init = ids.drop_last();
        lemma_fresh_ids(init, registry);
        let p = fresh_ids(init, registry);
        assert forall|x: Seq<char>| #[trigger] fresh_ids(ids, registry).contains(x) implies ids.contains(x)
            && !registry.contains(x) by {
            if p.contains(x) {
                let j = choose|j: int| 0 <= j < init.len() && init[j] == x;
                assert(ids[j] == x);
            } else {
                assert(fresh_ids(ids, registry) == p.push(ids.last()));
                let j = choose|j: int| 0 <= j < p.len() + 1 && p.push(ids.last())[j] == x;
                assert(x == ids.last());
                assert(ids[ids.len() - 1] == x);
            }
        }
        if !(registry.contains(ids.last()) || init.contains(ids.last())) {
            assert(!p.contains(ids.last()));
            let q = p.push(ids.last());
            assert forall|i: int, j: int| 0 <= i < q.len() && 0 <= j < q.len() && i != j implies q[i]
                != q[j] by {
                if i < p.len() && j < p.len() {
                } else if i < p.len() {
                    assert(p.contains(q[i]));
                } else {
                    assert(p.contains(q[j]));
                }
            }
        }
    }
}

/// Exactly-once application: once a batch has been applied and its fresh ids
/// recorded in the registry, no later batch hands any of those ids (or any id
/// recorded before) to the applier again, and no batch hands an id twice.
pub proof fn lemma_apply_exactly_once(
    registry: Seq<Seq<char>>,
    batch1: Seq<Seq<char>>,
    batch2: Seq<Seq<char>>,
)
    ensures
        fresh_ids(batch1, registry).no_duplicates(),
        fresh_ids(batch2, registry + fresh_ids(batch1, registry)).no_duplicates(),
        forall|x: Seq<char>| #[trigger]
            fresh_ids(batch2, registry + fresh_ids(batch1, registry)).contains(x) ==> !fresh_ids(
                batch1,
                registry,
            ).contains(x) && !registry.contains(x),
{
    let f1 = fresh_ids(batch1, registry);
    let reg1 = registry + f1;
    lemma_fresh_ids(batch1, registry);
    lemma_fresh_ids(batch2, reg1);
    assert forall|x: Seq<char>| #[trigger] fresh_ids(batch2, reg1).contains(x) implies !f1.contains(
        x,
    ) && !registry.contains(x) by {
        if f1.contains(x) {
            let j = choose|j: int| 0 <= j < f1.len() && f1[j] == x;
            assert(reg1[registry.len() + j] == x);
        }
        if registry.contains(x) {
            let j = choose|j: int| 0 <= j < registry.len() && registry[j] == x;
            assert(reg1[j] == x);
        }
    }
}

/// Exactly-once application, over the ops the applier is handed: within a
/// batch no two carry the same remote id and none is in the registry, and once
/// a batch has committed, the next batch hands over no op whose id was handed
/// over before or was already in the registry.
pub proof fn lemma_applier_sees_each_id_once(
    registry: Seq<Seq<char>>,
    batch1: Seq<RemoteOp>,
    batch2: Seq<RemoteOp>,
)
    ensures
        remote_ids(planned_ops(batch1, registry)).no_duplicates(),
        ({
            let reg1 = registry + remote_ids(planned_ops(batch1, registry));
            &&& remote_ids(planned_ops(batch2, reg1)).no_duplicates()
            &&& forall|x: Seq<char>| #[trigger]
                remote_ids(planned_ops(batch2, reg1)).contains(x) ==> !remote_ids(
                    planned_ops(batch1, registry),
                ).contains(x) && !registry.contains(x)
        }),
{
    lemma_planned_ids(batch1, registry);
    let reg1 = registry + remote_ids(planned_ops(batch1, registry));
    lemma_planned_ids(batch2, reg1);
    lemma_apply_exactly_once(registry, remote_ids(batch1), remote_ids(batch2));
}

/// Marking changes never moves a status backward.
pub proof fn lemma_status_monotonic(cs: Seq<ChangeModel>, ids: Seq<i64>, target: SyncStatus)
    ensures
        marked(cs, ids, target).len() == cs.len(),
        forall|i: int|
            0 <= i < cs.len() ==> status_rank(#[trigger] marked(cs, ids, target)[i].sync_status)
                >= status_rank(cs[i].sync_status),
{
}

/// A change logged at time `now` is the last change of the store, carries id
/// `last_id + 1`, is pending, and its token is the clock value the store now
/// holds.
pub proof fn lemma_logged_change_pending(
    m: EngineModel,
    table_name: Seq<char>,
    row_id: Seq<char>,
    op_type: OpType,
    columns: Option<JsonModel>,
    new_row: Option<JsonModel>,
    old_row: Option<JsonModel>,
    origin: Seq<char>,
    now: int,
)
    ensures
        ({
            let n = log_outcome(m, table_name, row_id, op_type, columns, new_row, old_row, origin, now);
            &&& n.changes.len() == m.changes.len() + 1
            &&& n.changes.last().change_id == m.last_id + 1
            &&& n.changes.last().sync_status == SyncStatus::Pending
            &&& n.changes.last().hlc == hlc_token(n.clock.0, n.clock.1, origin)
            &&& n.changes.last().origin == origin
        }),
{
}

/// The pending changes after a change is logged are those before it followed
/// by the new change, payloads as they were given: reading pending changes
/// gives back the logged `new_row` unchanged.
pub proof fn lemma_pending_round_trip(
    m: EngineModel,
    table_name: Seq<char>,
    row_id: Seq<char>,
    op_type: OpType,
    columns: Option<JsonModel>,
    new_row: Option<JsonModel>,
    old_row: Option<JsonModel>,
    origin: Seq<char>,
    now: int,
)
    ensures
        ({
            let n = log_outcome(m, table_name, row_id, op_type, columns, new_row, old_row, origin, now);
            &&& pending_of(n.changes) == pending_of(m.changes).push(n.changes.last())
            &&& pending_of(n.changes).last().new_row == new_row
            &&& pending_of(n.changes).last().columns == columns
            &&& pending_of(n.changes).last().old_row == old_row
        }),
{
    let n = log_outcome(m, table_name, row_id, op_type, columns, new_row, old_row, origin, now);
    assert(n.changes.drop_last() =~= m.changes);
}

/// The whole state of a store as plain values, for saving and loading it.
pub struct EngineParts {
    pub changes: Vec<Change>,
    pub last_change_id: i64,
    pub applied: Vec<AppliedOp>,
    pub hlc_last_ms: i64,
    pub hlc_last_ctr: i64,
    pub remote_cursor: Option<String>,
    pub schema_version: i32,
}

/// The store that `p` describes, its tables existing.
pub open spec fn parts_model(p: EngineParts) -> EngineModel {
    EngineModel {
        ready: true,
        changes: p.changes@.map_values(|c: Change| c@),
        last_id: p.last_change_id as int,
        applied: p.applied@.map_values(|a: AppliedOp| (a.remote_id@, a.applied_ms as int)),
        clock: (p.hlc_last_ms as int, p.hlc_last_ctr as int),
        cursor: match p.remote_cursor {
            Some(c) => Some(c@),
            None => None,
        },
        schema_version: p.schema_version as int,
    }
}

} // verus!
