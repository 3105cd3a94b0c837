//! Last-writer-wins merge of rows.

use vstd::prelude::*;

use crate::json::{is_object, json_get, json_set, lemma_get_after_set, JsonModel, JsonValue};

verus! {

/// `local` with each field of `fields`, in order, taken from `remote` where
/// `remote` has it.
pub open spec fn merge_fields(local: JsonModel, remote: JsonModel, fields: Seq<Seq<char>>) -> JsonModel
    decreases fields.len(),
{
    if fields.len() == 0 {
        local
    } else {
        let prev = merge_fields(local, remote, fields.drop_last());
        match json_get(remote, fields.last()) {
            Some(x) => json_set(prev, fields.last(), x),
            None => prev,
        }
    }
}

/// Last-writer-wins merge of a row: the remote row whole when no field list is
/// given, else the local row with the listed fields taken from the remote row.
pub open spec fn lww_merge(local: JsonModel, remote: JsonModel, fields: Option<Seq<Seq<char>>>) -> JsonModel {
    match fields {
        None => remote,
        Some(f) => merge_fields(local, remote, f),
    }
}

/// In a merge of an object row with a field list, each key reads as the remote
/// row's value where the key is listed and the remote row has it, and as the
/// local row's value otherwise.
pub proof fn lemma_lww_merge_reads(
    local: JsonModel,
    remote: JsonModel,
    fields: Seq<Seq<char>>,
    k: Seq<char>,
)
    requires
        is_object(local),
    ensures
        is_object(merge_fields(local, remote, fields)),
        json_get(merge_fields(local, remote, fields), k) == if fields.contains(k) && json_get(
            remote,
            k,
        ) is Some {
            json_get(remote, k)
        } else {
            json_get(local, k)
        },
    decreases fields.len(),
{
    if fields.len() > 0 {
        let init = fields.drop_last();
        lemma_lww_merge_reads(local, remote, init, k);
        let prev = merge_fields(local, remote, init);
        assert(fields.contains(k) <==> (init.contains(k) || fields.last() == k)) by {
            if fields.contains(k) {
                let j = choose|j: int| 0 <= j < fields.len() && fields[j] == k;
                if j < fields.len() - 1 {
                    assert(init[j] == k);
                }
            }
            if init.contains(k) {
                let j = choose|j: int| 0 <= j < init.len() && init[j] == k;
                assert(fields[j] == k);
            }
        }
        match json_get(remote, fields.last()) {
            Some(x) => {
                lemma_get_after_set(prev, fields.last(), x, k);
            },
            None => {},
        }
    }
}

/// A merge with a field list leaves a row that is no object as it is.
pub proof fn lemma_lww_merge_non_object(local: JsonModel, remote: JsonModel, fields: Seq<Seq<char>>)
    requires
        !is_object(local),
    ensures
        merge_fields(local, remote, fields) == local,
    decreases fields.len(),
{
    if fields.len() > 0 {
        lemma_lww_merge_non_object(local, remote, fields.drop_last());
    }
}

/// Merges a remote row into a local one, last writer wins: with no field list
/// the result is the remote row; otherwise the local row with each listed field
/// overwritten by the remote row's value of that field where it has one. A
/// local row that is no object comes back unchanged.
pub fn lww_merge_row(local: &JsonValue, remote: &JsonValue, changed_fields: Option<&[String]>) -> (r:
    JsonValue)
    ensures
        match changed_fields {
            None => r@ == lww_merge(local@, remote@, None),
            Some(f) => r@ == lww_merge(local@, remote@, Some(f@.map_values(|s: String| s@))),
        },
{
    match changed_fields {
        None => remote.copy(),
        Some(fields) => {
            let ghost fv = fields@.map_values(|s: String| s@);
            let mut out = local.copy();
            let mut i: usize = 0;
            while i < fields.len()
                invariant
                    i <= fields.len(),
                    fv == fields@.map_values(|s: String| s@),
                    out@ == merge_fields(local@, remote@, fv.subrange(0, i as int)),
                decreases fields.len() - i,
            {
                let k = fields[i].as_str();
                assert(fv.subrange(0, i + 1).drop_last() =~= fv.subrange(0, i as int));
                match remote.get(k) {
                    Some(v) => {
                        out.set(k, v);
                    },
                    None => {},
                }
                i = i + 1;
            }
            assert(fv.subrange(0, fields.len() as int) =~= fv);
            out
        },
    }
}

} // verus!
