//! The engine's view of a JSON payload: the top-level members of an object,
//! each value kept as its JSON text.

use vstd::prelude::*;

verus! {

/// One member of a JSON object: its key, and its value as JSON text.
#[derive(Clone, Debug, PartialEq, Eq)]
pub struct JsonMember {
    pub key: String,
    pub value: String,
}

/// A JSON payload as the engine reads it. The engine is schema-agnostic: it
/// looks only at the top-level members of an object, so each member value is
/// held as its JSON text, and a payload that is no object is held whole as its
/// JSON text.
#[derive(Clone, Debug, PartialEq, Eq)]
pub enum JsonValue {
    Object(Vec<JsonMember>),
    Other(String),
}

/// The mathematical value of a `JsonValue`.
pub enum JsonModel {
    Object(Seq<(Seq<char>, Seq<char>)>),
    Other(Seq<char>),
}

impl View for JsonMember {
    type V = (Seq<char>, Seq<char>);

    open spec fn view(&self) -> (Seq<char>, Seq<char>) {
        (self.key@, self.value@)
    }
}

impl View for JsonValue {
    type V = JsonModel;

    open spec fn view(&self) -> JsonModel {
        match self {
            JsonValue::Object(ms) => JsonModel::Object(ms@.map_values(|m: JsonMember| m@)),
            JsonValue::Other(t) => JsonModel::Other(t@),
        }
    }
}

/// Index of the first member of `ms` at or after `from` whose key is `k`, or
/// `ms.len()` if there is none.
pub open spec fn member_from(ms: Seq<(Seq<char>, Seq<char>)>, k: Seq<char>, from: int) -> int
    decreases ms.len() - from,
{
    if from < 0 || from >= ms.len() {
        ms.len() as int
    } else if ms[from].0 == k {
        from
    } else {
        member_from(ms, k, from + 1)
    }
}

/// The value text of member `k` (its first occurrence), if `v` is an object
/// that has it.
pub open spec fn json_get(v: JsonModel, k: Seq<char>) -> Option<Seq<char>> {
    match v {
        JsonModel::Object(ms) => {
            let i = member_from(ms, k, 0);
            if i < ms.len() {
                Some(ms[i].1)
            } else {
                None
            }
        },
        JsonModel::Other(_) => None,
    }
}

/// `v` with member `k` set to `x`: replaced in place where present, appended
/// where absent. A value that is no object is left as it is.
pub open spec fn json_set(v: JsonModel, k: Seq<char>, x: Seq<char>) -> JsonModel {
    match v {
        JsonModel::Object(ms) => {
            let i = member_from(ms, k, 0);
            if i < ms.len() {
                JsonModel::Object(ms.update(i, (k, x)))
            } else {
                JsonModel::Object(ms.push((k, x)))
            }
        },
        JsonModel::Other(_) => v,
    }
}

pub open spec fn is_object(v: JsonModel) -> bool {
    v is Object
}

proof fn lemma_member_from_bounds(ms: Seq<(Seq<char>, Seq<char>)>, k: Seq<char>, from: int)
    requires
        0 <= from <= ms.len(),
    ensures
        from <= member_from(ms, k, from) <= ms.len(),
        member_from(ms, k, from) < ms.len() ==> ms[member_from(ms, k, from)].0 == k,
        forall|j: int| from <= j < member_from(ms, k, from) ==> ms[j].0 != k,
    decreases ms.len() - from,
{
    if from < ms.len() && ms[from].0 != k {
        lemma_member_from_bounds(ms, k, from + 1);
    }
}

proof fn lemma_member_from_unique(ms: Seq<(Seq<char>, Seq<char>)>, k: Seq<char>, i: int)
    requires
        0 <= i <= ms.len(),
        i < ms.len() ==> ms[i].0 == k,
        forall|j: int| 0 <= j < i ==> ms[j].0 != k,
    ensures
        member_from(ms, k, 0) == i,
{
    lemma_member_from_bounds(ms, k, 0);
    let m = member_from(ms, k, 0);
    if m < i {
        assert(ms[m].0 != k);
    }
    if i < m {
        assert(ms[i].0 != k);
    }
}

/// After setting member `k` of an object, reading `k` gives the new value and
/// reading any other key gives what it gave before.
pub proof fn lemma_get_after_set(v: JsonModel, k: Seq<char>, x: Seq<char>, k2: Seq<char>)
    requires
        is_object(v),
    ensures
        is_object(json_set(v, k, x)),
        json_get(json_set(v, k, x), k2) == if k2 == k {
            Some(x)
        } else {
            json_get(v, k2)
        },
{
    let ms = v->Object_0;
    let i = member_from(ms, k, 0);
    lemma_member_from_bounds(ms, k, 0);
    lemma_member_from_bounds(ms, k2, 0);
    let i2 = member_from(ms, k2, 0);
    let ns = json_set(v, k, x)->Object_0;
    if k2 == k {
        lemma_member_from_unique(ns, k2, i);
    } else {
        if i < ms.len() {
            assert forall|j: int| 0 <= j < i2 implies ns[j].0 != k2 by {
                assert(j != i ==> ns[j] == ms[j]);
            }
            if i2 < ms.len() {
                assert(ns[i2] == ms[i2] || i2 == i);
            }
            lemma_member_from_unique(ns, k2, if i2 < ms.len() { i2 } else { ns.len() as int });
        } else {
            assert forall|j: int| 0 <= j < i2 implies ns[j].0 != k2 by {
                assert(ns[j] == ms[j]);
            }
            if i2 < ms.len() {
                assert(ns[i2] == ms[i2]);
                lemma_member_from_unique(ns, k2, i2);
            } else {
                assert(ns[ms.len() as int].0 == k);
                lemma_member_from_unique(ns, k2, ns.len() as int);
            }
        }
    }
}

impl JsonMember {
    /// A member with the given key and value text.
    pub fn new(key: &str, value: &str) -> (r: JsonMember)
        ensures
            r@ == (key@, value@),
    {
        JsonMember { key: key.to_owned(), value: value.to_owned() }
    }
}

impl JsonValue {
    /// An object with the given members, in order.
    pub fn object(members: Vec<JsonMember>) -> (r: JsonValue)
        ensures
            r@ == JsonModel::Object(members@.map_values(|m: JsonMember| m@)),
    {
        JsonValue::Object(members)
    }

    /// A payload that is no object, given as its JSON text.
    pub fn other(text: &str) -> (r: JsonValue)
        ensures
            r@ == JsonModel::Other(text@),
    {
        JsonValue::Other(text.to_owned())
    }

    /// A copy with the same value.
    pub fn copy(&self) -> (r: JsonValue)
        ensures
            r@ == self@,
    {
        match self {
            JsonValue::Object(ms) => {
                let mut out: Vec<JsonMember> = Vec::new();
                let mut i: usize = 0;
                while i < ms.len()
                    invariant
                        i <= ms.len(),
                        out.len() == i,
                        forall|j: int| 0 <= j < i ==> (#[trigger] out@[j])@ == ms@[j]@,
                    decreases ms.len() - i,
                {
                    let m = JsonMember { key: ms[i].key.clone(), value: ms[i].value.clone() };
                    out.push(m);
                    i = i + 1;
                }
                assert(out@.map_values(|m: JsonMember| m@) =~= ms@.map_values(|m: JsonMember| m@));
                JsonValue::Object(out)
            },
            JsonValue::Other(t) => JsonValue::Other(t.clone()),
        }
    }

    /// Index of the first member with key `key`, or the member count.
    fn find(ms: &Vec<JsonMember>, key: &String) -> (r: usize)
        ensures
            r == member_from(ms@.map_values(|m: JsonMember| m@), key@, 0),
    {
        let ghost mv = ms@.map_values(|m: JsonMember| m@);
        let mut i: usize = 0;
        while i < ms.len()
            invariant
                i <= ms.len(),
                mv == ms@.map_values(|m: JsonMember| m@),
                member_from(mv, key@, 0) == member_from(mv, key@, i as int),
            decreases ms.len() - i,
        {
            if ms[i].key == *key {
                return i;
            }
            i = i + 1;
        }
        i
    }

    /// The value text of member `key`, if this is an object that has it.
    pub fn get(&self, key: &str) -> (r: Option<String>)
        ensures
            match r {
                Some(x) => json_get(self@, key@) == Some(x@),
                None => json_get(self@, key@) is None,
            },
    {
        match self {
            JsonValue::Object(ms) => {
                let k = key.to_owned();
                let i = Self::find(ms, &k);
                if i < ms.len() {
                    Some(ms[i].value.clone())
                } else {
                    None
                }
            },
            JsonValue::Other(_) => None,
        }
    }

    /// Sets member `key` to `value` where this is an object (see `json_set`).
    pub fn set(&mut self, key: &str, value: String)
        ensures
            final(self)@ == json_set(old(self)@, key@, value@),
    {
        match self {
            JsonValue::Object(ms) => {
                let k = key.to_owned();
                let i = Self::find(ms, &k);
                let ghost before = ms@;
                if i < ms.len() {
                    ms.set(i, JsonMember { key: k, value });
                    assert(ms@.map_values(|m: JsonMember| m@) =~= before.map_values(
                        |m: JsonMember| m@,
                    ).update(i as int, (key@, value@)));
                } else {
                    ms.push(JsonMember { key: k, value });
                    assert(ms@.map_values(|m: JsonMember| m@) =~= before.map_values(
                        |m: JsonMember| m@,
                    ).push((key@, value@)));
                }
            },
            JsonValue::Other(_) => {},
        }
    }
}

} // verus!
