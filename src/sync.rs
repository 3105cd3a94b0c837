//! One push-and-pull round over an engine.

use vstd::prelude::*;

use crate::model::{
    applied_ids, fresh_ids, lemma_status_monotonic, marked, model_wf, pending_batch, planned_ops,
    remote_ids, EngineModel,
};
use crate::oplog::{applier_trace, ApplyDomainOp, SyncEngine};
use crate::types::{status_rank, Change, RemoteOp, SyncError, SyncStatus};

verus! {

/// Drives push and pull rounds for one engine, with the host's applier.
pub struct SyncClient<A> {
    engine: SyncEngine,
    applier: A,
}

/// What one round may do to the store: statuses only move forward, the
/// registry only grows, and nothing else but the cursor changes.
pub open spec fn round_effect(old: EngineModel, new: EngineModel) -> bool {
    &&& new.changes.len() == old.changes.len()
    &&& forall|i: int|
        0 <= i < old.changes.len() ==> (#[trigger] new.changes[i]).change_id
            == old.changes[i].change_id && status_rank(new.changes[i].sync_status) >= status_rank(
            old.changes[i].sync_status,
        )
    &&& old.applied.len() <= new.applied.len()
    &&& old.applied == new.applied.subrange(0, old.applied.len() as int)
    &&& new.last_id == old.last_id
    &&& new.clock == old.clock
    &&& new.ready == old.ready
    &&& new.schema_version == old.schema_version
}

/// The push step of a round: with nothing pending the store is left as it
/// was; otherwise `push`, handed the pending batch `b`, returned `Ok(acked)`
/// and those changes were marked acked, leaving `mid`.
pub open spec fn push_step<P: Fn(&[Change]) -> Result<Vec<i64>, SyncError>>(
    push: P,
    old: EngineModel,
    limit: int,
    b: &[Change],
    acked: Vec<i64>,
    mid: EngineModel,
) -> bool {
    if pending_batch(old.changes, limit).len() == 0 {
        mid == old
    } else {
        &&& b@.map_values(|c: Change| c@) == pending_batch(old.changes, limit)
        &&& push.ensures((b,), Ok::<Vec<i64>, SyncError>(acked))
        &&& mid == (EngineModel { changes: marked(old.changes, acked@, SyncStatus::Acked), ..old })
    }
}

/// `c` is the stored cursor `cursor`, as handed to `pull`.
pub open spec fn cursor_arg(c: Option<String>, cursor: Option<Seq<char>>) -> bool {
    match c {
        Some(s) => cursor == Some(s@),
        None => cursor is None,
    }
}

/// `push`, handed the pending batch `b`, returned the error `e`.
pub open spec fn push_refused<P: Fn(&[Change]) -> Result<Vec<i64>, SyncError>>(
    push: P,
    old: EngineModel,
    limit: int,
    b: &[Change],
    e: SyncError,
) -> bool {
    &&& pending_batch(old.changes, limit).len() > 0
    &&& b@.map_values(|c: Change| c@) == pending_batch(old.changes, limit)
    &&& push.ensures((b,), Err::<Vec<i64>, SyncError>(e))
}

/// The push step left `mid`, and `pull`, handed the stored cursor `c`,
/// returned the error `e`.
pub open spec fn pull_refused<
    P: Fn(&[Change]) -> Result<Vec<i64>, SyncError>,
    G: Fn(Option<String>) -> Result<(Vec<RemoteOp>, Option<String>), SyncError>,
>(
    push: P,
    pull: G,
    old: EngineModel,
    limit: int,
    b: &[Change],
    acked: Vec<i64>,
    mid: EngineModel,
    c: Option<String>,
    e: SyncError,
) -> bool {
    &&& push_step(push, old, limit, b, acked, mid)
    &&& cursor_arg(c, mid.cursor)
    &&& pull.ensures((c,), Err::<(Vec<RemoteOp>, Option<String>), SyncError>(e))
}

/// The push step left `mid`; `pull`, handed the stored cursor `c`, returned
/// `pulled`; and the applier ran over the ops planned from `pulled` as `txs`
/// and `rs` record, taking the transaction from `tx0` to `tx1`.
pub open spec fn pulled_and_applied<
    P: Fn(&[Change]) -> Result<Vec<i64>, SyncError>,
    G: Fn(Option<String>) -> Result<(Vec<RemoteOp>, Option<String>), SyncError>,
    T,
    A: ApplyDomainOp<T>,
>(
    push: P,
    pull: G,
    applier: A,
    old: EngineModel,
    limit: int,
    b: &[Change],
    acked: Vec<i64>,
    mid: EngineModel,
    c: Option<String>,
    pulled: (Vec<RemoteOp>, Option<String>),
    txs: Seq<T>,
    rs: Seq<Result<(), SyncError>>,
    tx0: T,
    tx1: T,
) -> bool {
    &&& push_step(push, old, limit, b, acked, mid)
    &&& cursor_arg(c, mid.cursor)
    &&& pull.ensures((c,), Ok::<(Vec<RemoteOp>, Option<String>), SyncError>(pulled))
    &&& applier_trace(applier, planned_ops(pulled.0@, applied_ids(mid)), txs, rs)
    &&& txs[0] == tx0
    &&& txs.last() == tx1
}

impl<A> SyncClient<A> {
    /// The store of the client's engine.
    pub closed spec fn store(&self) -> EngineModel {
        self.engine@
    }

    /// The host's applier that the client hands remote ops to.
    pub closed spec fn applier(&self) -> A {
        self.applier
    }

    pub open spec fn wf(&self) -> bool {
        model_wf(self.store())
    }

    /// A client over a fresh engine whose tables are created.
    pub fn new(applier: A) -> (r: Result<SyncClient<A>, SyncError>)
        ensures
            match r {
                Ok(c) => c.wf() && c.store() == (EngineModel {
                    ready: true,
                    changes: Seq::empty(),
                    last_id: 0,
                    applied: Seq::empty(),
                    clock: (0, 0),
                    cursor: None,
                    schema_version: 1,
                }),
                Err(_) => false,
            },
    {
        let mut engine = SyncEngine::new();
        engine.init_schema()?;
        Ok(SyncClient { engine, applier })
    }

    /// A client over an existing engine.
    pub fn from_parts(engine: SyncEngine, applier: A) -> (r: SyncClient<A>)
        ensures
            r.store() == engine@,
    {
        SyncClient { engine, applier }
    }

    /// The client's engine.
    pub fn engine(&self) -> (r: &SyncEngine)
        ensures
            r@ == self.store(),
    {
        &self.engine
    }

    /// Applies what a pull returned: the ops first, then the new cursor, if
    /// any. If applying fails the store is left as it was, so the cursor does
    /// not advance past ops that were not applied.
    pub fn apply_pulled<T>(&mut self, ops: &[RemoteOp], new_cursor: Option<String>, tx: &mut T) -> (r:
        Result<(), SyncError>) where A: ApplyDomainOp<T>
        requires
            old(self).wf(),
        ensures
            final(self).wf(),
            match r {
                Ok(_) => {
                    &&& old(self).store().ready
                    &&& applied_ids(final(self).store()) == applied_ids(old(self).store())
                        + fresh_ids(remote_ids(ops@), applied_ids(old(self).store()))
                    &&& old(self).store().applied == final(self).store().applied.subrange(
                        0,
                        old(self).store().applied.len() as int,
                    )
                    &&& final(self).store() == (EngineModel {
                        applied: final(self).store().applied,
                        cursor: match new_cursor {
                            Some(c) => Some(c@),
                            None => old(self).store().cursor,
                        },
                        ..old(self).store()
                    })
                },
                Err(_) => final(self).store() == old(self).store(),
            },
            !old(self).store().ready ==> r is Err,
            old(self).store().ready && fresh_ids(remote_ids(ops@), applied_ids(old(self).store())).len()
                == 0 ==> r is Ok,
            final(self).applier() == old(self).applier(),
            old(self).store().ready ==> exists|txs: Seq<T>, rs: Seq<Result<(), SyncError>>|
                #[trigger] applier_trace(
                    old(self).applier(),
                    planned_ops(ops@, applied_ids(old(self).store())),
                    txs,
                    rs,
                ) && txs[0] == *old(tx) && txs.last() == *final(tx) && match r {
                    Ok(_) => rs.len() == planned_ops(ops@, applied_ids(old(self).store())).len(),
                    Err(e) => rs.len() > 0 && rs.last() == Err::<(), SyncError>(e),
                },
    {
        let ghost tx0 = *tx;
        let ghost planned = planned_ops(ops@, applied_ids(self.store()));
        let ghost a0 = self.applier;
        if ops.len() > 0 {
            match self.engine.apply_remote_ops(ops, &self.applier, tx) {
                Ok(()) => {
                    assert(exists|txs: Seq<T>, rs: Seq<Result<(), SyncError>>|
                        #[trigger] applier_trace(a0, planned, txs, rs) && txs[0] == tx0 && txs.last() == *tx
                            && rs.len() == planned.len());
                },
                Err(e) => {
                    return Err(e);
                },
            }
        } else {
            proof {
                let txs = seq![*tx];
                let rs = Seq::<Result<(), SyncError>>::empty();
                assert(ops@ =~= Seq::<RemoteOp>::empty());
                assert(planned_ops(ops@, applied_ids(self.store())) =~= Seq::<RemoteOp>::empty());
                assert(applier_trace(a0, planned, txs, rs) && txs[0] == tx0 && txs.last() == *tx
                    && rs.len() == planned.len());
                assert(exists|txs: Seq<T>, rs: Seq<Result<(), SyncError>>|
                    #[trigger] applier_trace(a0, planned, txs, rs) && txs[0] == tx0 && txs.last() == *tx
                        && rs.len() == planned.len());
            }
            if !self.engine.get_remote_cursor().is_ok() {
                return Err(SyncError::Store("the engine's tables are not initialised".to_owned()));
            }
            proof {
                assert(remote_ids(ops@) =~= Seq::<Seq<char>>::empty());
                assert(applied_ids(self.engine@) + Seq::<Seq<char>>::empty() =~= applied_ids(
                    self.engine@,
                ));
                assert(self.engine@.applied.subrange(0, self.engine@.applied.len() as int)
                    =~= self.engine@.applied);
            }
        }
        let ghost w = choose|txs: Seq<T>, rs: Seq<Result<(), SyncError>>|
            #[trigger] applier_trace(a0, planned, txs, rs) && txs[0] == tx0 && txs.last() == *tx
                && rs.len() == planned.len();
        assert(applier_trace(a0, planned, w.0, w.1) && w.0[0] == tx0 && w.0.last() == *tx
            && w.1.len() == planned.len());
        match new_cursor {
            Some(c) => {
                match self.engine.set_remote_cursor(c.as_str()) {
                    Ok(()) => {},
                    Err(e) => {
                        return Err(e);
                    },
                }
            },
            None => {},
        }
        assert(old(self).applier() == a0);
        assert(planned_ops(ops@, applied_ids(old(self).store())) == planned);
        assert(applier_trace(old(self).applier(), planned_ops(ops@, applied_ids(old(self).store())), w.0, w.1));
        Ok(())
    }

    /// Runs one round: pushes up to `limit` pending changes and marks the ids
    /// that `push` reports as acked; then pulls from the stored cursor, applies
    /// what came back and stores the new cursor. Each step commits on its own;
    /// the first failure ends the round. The cursor changes only in a round
    /// that succeeds.
    pub fn sync_cycle<T, P, G>(&mut self, push: P, pull: G, tx: &mut T, limit: i64) -> (r: Result<
        (),
        SyncError,
    >) where
        A: ApplyDomainOp<T>,
        P: Fn(&[Change]) -> Result<Vec<i64>, SyncError>,
        G: Fn(Option<String>) -> Result<(Vec<RemoteOp>, Option<String>), SyncError>,

        requires
            old(self).wf(),
            forall|c: &[Change]| #[trigger] push.requires((c,)),
            forall|c: Option<String>| #[trigger] pull.requires((c,)),
        ensures
            final(self).wf(),
            round_effect(old(self).store(), final(self).store()),
            r is Err ==> final(self).store().cursor == old(self).store().cursor,
            !old(self).store().ready ==> r is Err && final(self).store() == old(self).store(),
            r is Err ==> final(self).store().applied == old(self).store().applied,
            old(self).store().ready ==> match r {
                Ok(_) => exists|
                    b: &[Change],
                    acked: Vec<i64>,
                    mid: EngineModel,
                    c: Option<String>,
                    pulled: (Vec<RemoteOp>, Option<String>),
                    txs: Seq<T>,
                    rs: Seq<Result<(), SyncError>>,
                |
                    #[trigger] pulled_and_applied(
                        push,
                        pull,
                        old(self).applier(),
                        old(self).store(),
                        limit as int,
                        b,
                        acked,
                        mid,
                        c,
                        pulled,
                        txs,
                        rs,
                        *old(tx),
                        *final(tx),
                    ) && rs.len() == planned_ops(pulled.0@, applied_ids(mid)).len()
                        && final(self).store() == (EngineModel {
                        applied: final(self).store().applied,
                        cursor: match pulled.1 {
                            Some(s) => Some(s@),
                            None => mid.cursor,
                        },
                        ..mid
                    }) && applied_ids(final(self).store()) == applied_ids(mid) + fresh_ids(
                        remote_ids(pulled.0@),
                        applied_ids(mid),
                    ),
                Err(e) => (exists|b: &[Change]|
                    #[trigger] push_refused(push, old(self).store(), limit as int, b, e)
                        && final(self).store() == old(self).store() && *final(tx) == *old(tx))
                    || (exists|b: &[Change], acked: Vec<i64>, mid: EngineModel, c: Option<String>|
                    #[trigger] pull_refused(
                        push,
                        pull,
                        old(self).store(),
                        limit as int,
                        b,
                        acked,
                        mid,
                        c,
                        e,
                    ) && final(self).store() == mid && *final(tx) == *old(tx)) || (exists|
                    b: &[Change],
                    acked: Vec<i64>,
                    mid: EngineModel,
                    c: Option<String>,
                    pulled: (Vec<RemoteOp>, Option<String>),
                    txs: Seq<T>,
                    rs: Seq<Result<(), SyncError>>,
                |
                    #[trigger] pulled_and_applied(
                        push,
                        pull,
                        old(self).applier(),
                        old(self).store(),
                        limit as int,
                        b,
                        acked,
                        mid,
                        c,
                        pulled,
                        txs,
                        rs,
                        *old(tx),
                        *final(tx),
                    ) && rs.len() > 0 && rs.last() == Err::<(), SyncError>(e) && final(self).store()
                        == mid),
            },
    {
        let ghost start = self.store();
        let ghost tx0 = *tx;
        proof {
            lemma_round_effect_refl(start);
        }
        let locals = match self.engine.get_pending_ops(limit) {
            Ok(l) => l,
            Err(e) => {
                return Err(e);
            },
        };
        let batch: &[Change] = locals.as_slice();
        let ghost mut acked_w: Vec<i64> = vstd::pervasive::arbitrary();
        if locals.len() > 0 {
            let pushed = push(batch);
            let acked = match pushed {
                Ok(a) => a,
                Err(e) => {
                    proof {
                        assert(push_refused(push, start, limit as int, batch, e));
                    }
                    return Err(e);
                },
            };
            proof {
                acked_w = acked;
            }
            match self.engine.mark_ops_acked(acked.as_slice()) {
                Ok(()) => {},
                Err(e) => {
                    return Err(e);
                },
            }
            proof {
                lemma_status_monotonic(start.changes, acked@, SyncStatus::Acked);
                let m = self.store();
                assert forall|i: int| 0 <= i < start.changes.len() implies (#[trigger] m.changes[i]).change_id
                    == start.changes[i].change_id && status_rank(m.changes[i].sync_status)
                    >= status_rank(start.changes[i].sync_status) by {
                    assert(m.changes[i] == marked(start.changes, acked@, SyncStatus::Acked)[i]);
                }
            }
        }
        let ghost mid = self.store();
        assert(push_step(push, start, limit as int, batch, acked_w, mid));
        assert(round_effect(start, mid) && mid.cursor == start.cursor);
        let cursor = match self.engine.get_remote_cursor() {
            Ok(c) => c,
            Err(e) => {
                return Err(e);
            },
        };
        let ghost c0 = cursor;
        let fetched = pull(cursor);
        let pulled = match fetched {
            Ok(p) => p,
            Err(e) => {
                proof {
                    assert(pull_refused(push, pull, start, limit as int, batch, acked_w, mid, c0, e));
                }
                return Err(e);
            },
        };
        let ghost p0 = pulled;
        let (ops, new_cursor) = pulled;
        assert(ops@ == p0.0@);
        let res = self.apply_pulled(ops.as_slice(), new_cursor, tx);
        proof {
            let f = self.store();
            let w = choose|txs: Seq<T>, rs: Seq<Result<(), SyncError>>|
                #[trigger] applier_trace(self.applier(), planned_ops(ops@, applied_ids(mid)), txs, rs)
                    && txs[0] == tx0 && txs.last() == *tx && match res {
                    Ok(_) => rs.len() == planned_ops(ops@, applied_ids(mid)).len(),
                    Err(e) => rs.len() > 0 && rs.last() == Err::<(), SyncError>(e),
                };
            assert(pulled_and_applied(
                push,
                pull,
                old(self).applier(),
                start,
                limit as int,
                batch,
                acked_w,
                mid,
                c0,
                p0,
                w.0,
                w.1,
                *old(tx),
                *tx,
            ));
            if res is Ok {
                assert(applied_ids(f).len() == f.applied.len());
                assert(applied_ids(mid).len() == mid.applied.len());
                assert(round_effect(mid, f));
                lemma_round_effect_trans(start, mid, f);
            }
        }
        res
    }
}

proof fn lemma_round_effect_refl(m: EngineModel)
    ensures
        round_effect(m, m),
{
    assert(m.applied.subrange(0, m.applied.len() as int) =~= m.applied);
}

proof fn lemma_round_effect_trans(a: EngineModel, b: EngineModel, c: EngineModel)
    requires
        round_effect(a, b),
        round_effect(b, c),
    ensures
        round_effect(a, c),
{
    assert forall|i: int| 0 <= i < a.changes.len() implies (#[trigger] c.changes[i]).change_id
        == a.changes[i].change_id && status_rank(c.changes[i].sync_status) >= status_rank(
        a.changes[i].sync_status,
    ) by {
        assert(b.changes[i].change_id == a.changes[i].change_id);
    }
    assert(a.applied =~= c.applied.subrange(0, a.applied.len() as int)) by {
        assert(b.applied.subrange(0, a.applied.len() as int) =~= c.applied.subrange(
            0,
            b.applied.len() as int,
        ).subrange(0, a.applied.len() as int));
    }
}

} // verus!
