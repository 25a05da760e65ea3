//! A JSON value model for settings files, with the object operations that
//! settings migrations use.

use vstd::prelude::*;

verus! {

/// A JSON value as stored in a settings file. Numbers keep their text; an
/// object keeps its entries as key and value pairs whose keys are distinct
/// (`keys_unique`), which the object operations below keep.
#[derive(Debug)]
pub enum JsonValue {
    Null,
    Bool(bool),
    Number(String),
    String(String),
    Array(Vec<JsonValue>),
    Object(Vec<(String, JsonValue)>),
}

/// The mathematical value of a JSON value.
pub enum Json {
    Null,
    Bool(bool),
    Number(Seq<char>),
    Str(Seq<char>),
    Array(Seq<Json>),
    Object(Seq<(Seq<char>, Json)>),
}

pub open spec fn width(v: JsonValue) -> int {
    match v {
        JsonValue::Array(a) => a@.len() as int + 1,
        JsonValue::Object(m) => m@.len() as int + 1,
        _ => 0,
    }
}

/// The value of a JSON value.
pub open spec fn json_view(v: JsonValue) -> Json
    decreases v, width(v),
{
    match v {
        JsonValue::Null => Json::Null,
        JsonValue::Bool(b) => Json::Bool(b),
        JsonValue::Number(n) => Json::Number(n@),
        JsonValue::String(s) => Json::Str(s@),
        JsonValue::Array(_) => Json::Array(elements_from(v, 0)),
        JsonValue::Object(_) => Json::Object(entries_from(v, 0)),
    }
}

/// The values of the elements of array `v` from the `i`-th on.
pub open spec fn elements_from(v: JsonValue, i: int) -> Seq<Json>
    decreases v, width(v) - 1 - i,
{
    match v {
        JsonValue::Array(a) => if 0 <= i < a@.len() {
            seq![json_view(a@[i])] + elements_from(v, i + 1)
        } else {
            seq![]
        },
        _ => seq![],
    }
}

/// The values of the entries of object `v` from the `i`-th on.
pub open spec fn entries_from(v: JsonValue, i: int) -> Seq<(Seq<char>, Json)>
    decreases v, width(v) - 1 - i,
{
    match v {
        JsonValue::Object(m) => if 0 <= i < m@.len() {
            seq![(m@[i].0@, json_view(m@[i].1))] + entries_from(v, i + 1)
        } else {
            seq![]
        },
        _ => seq![],
    }
}

/// The values of a list of object entries.
pub open spec fn entries_view(m: Seq<(String, JsonValue)>) -> Seq<(Seq<char>, Json)> {
    Seq::new(m.len(), |k: int| (m[k].0@, json_view(m[k].1)))
}

proof fn lemma_entries_from(m: Vec<(String, JsonValue)>, i: int)
    requires
        0 <= i <= m@.len(),
    ensures
        entries_from(JsonValue::Object(m), i) == entries_view(m@).skip(i),
    decreases m@.len() - i,
{
    if i < m@.len() {
        lemma_entries_from(m, i + 1);
        assert(entries_from(JsonValue::Object(m), i) =~= entries_view(m@).skip(i));
    } else {
        assert(entries_view(m@).skip(i) =~= Seq::empty());
    }
}

/// An object's value is the sequence of its entries' values.
pub proof fn lemma_object_view(m: Vec<(String, JsonValue)>)
    ensures
        json_view(JsonValue::Object(m)) == Json::Object(entries_view(m@)),
{
    lemma_entries_from(m, 0);
    assert(entries_view(m@).skip(0) =~= entries_view(m@));
}

/// No two entries share a key: the invariant of an object's entries, as a
/// JSON object is a map.
pub open spec fn keys_unique(m: Seq<(Seq<char>, Json)>) -> bool {
    forall|a: int, b: int| 0 <= a < b < m.len() ==> #[trigger] m[a].0 != #[trigger] m[b].0
}

/// The position of the first entry with key `key`, or -1.
pub open spec fn key_index(m: Seq<(Seq<char>, Json)>, key: Seq<char>) -> int
    decreases m.len(),
{
    if m.len() == 0 {
        -1
    } else {
        let rest = key_index(m.drop_last(), key);
        if rest >= 0 {
            rest
        } else if m.last().0 == key {
            m.len() - 1
        } else {
            -1
        }
    }
}

/// The value under `key`.
pub open spec fn obj_get(m: Seq<(Seq<char>, Json)>, key: Seq<char>) -> Option<Json> {
    let i = key_index(m, key);
    if 0 <= i < m.len() {
        Some(m[i].1)
    } else {
        None
    }
}

/// `m` without its entry under `key`.
pub open spec fn obj_remove(m: Seq<(Seq<char>, Json)>, key: Seq<char>) -> Seq<(Seq<char>, Json)> {
    let i = key_index(m, key);
    if 0 <= i < m.len() {
        m.remove(i)
    } else {
        m
    }
}

/// `m` with `value` under `key`: in place of the old value, or added last.
pub open spec fn obj_insert(m: Seq<(Seq<char>, Json)>, key: Seq<char>, value: Json) -> Seq<(Seq<char>, Json)> {
    let i = key_index(m, key);
    if 0 <= i < m.len() {
        m.update(i, (key, value))
    } else {
        m.push((key, value))
    }
}

/// Inserting and removing keep the keys distinct, as does giving an entry a
/// new value under its own key.
pub proof fn lemma_keys_unique_kept(m: Seq<(Seq<char>, Json)>, key: Seq<char>, value: Json)
    requires
        keys_unique(m),
    ensures
        keys_unique(obj_insert(m, key, value)),
        keys_unique(obj_remove(m, key)),
        forall|i: int| 0 <= i < m.len() ==> keys_unique(#[trigger] m.update(i, (m[i].0, value))),
{
    lemma_key_index(m, key);
    let i = key_index(m, key);
    if 0 <= i < m.len() {
        let r = m.remove(i);
        assert forall|a: int, b: int| 0 <= a < b < r.len() implies #[trigger] r[a].0 != #[trigger] r[b].0 by {
            let a0 = if a < i { a } else { a + 1 };
            let b0 = if b < i { b } else { b + 1 };
            assert(r[a] == m[a0] && r[b] == m[b0]);
        }
    }
    let n = obj_insert(m, key, value);
    assert forall|a: int, b: int| 0 <= a < b < n.len() implies #[trigger] n[a].0 != #[trigger] n[b].0 by {
        if !(0 <= i < m.len()) && b == m.len() {
            assert(n[a] == m[a]);
        } else {
            assert(n[a].0 == m[a].0 && n[b].0 == m[b].0);
        }
    }
    assert forall|i: int| 0 <= i < m.len() implies keys_unique(#[trigger] m.update(i, (m[i].0, value))) by {
        let u = m.update(i, (m[i].0, value));
        assert forall|a: int, b: int| 0 <= a < b < u.len() implies #[trigger] u[a].0 != #[trigger] u[b].0 by {
            assert(u[a].0 == m[a].0 && u[b].0 == m[b].0);
        }
    }
}

pub proof fn lemma_key_index(m: Seq<(Seq<char>, Json)>, key: Seq<char>)
    ensures
        -1 <= key_index(m, key) < m.len(),
        key_index(m, key) >= 0 ==> m[key_index(m, key)].0 == key,
        key_index(m, key) == -1 ==> forall|k: int| 0 <= k < m.len() ==> #[trigger] m[k].0 != key,
        forall|k: int| 0 <= k < key_index(m, key) ==> #[trigger] m[k].0 != key,
    decreases m.len(),
{
    if m.len() > 0 {
        lemma_key_index(m.drop_last(), key);
        assert forall|k: int| 0 <= k < m.len() - 1 implies #[trigger] m[k] == m.drop_last()[k] by {}
    }
}

/// Finds the entry with key `key`.
pub fn find_key(m: &Vec<(String, JsonValue)>, key: &String) -> (r: Option<usize>)
    ensures
        match r {
            Some(i) => i < m@.len() && i as int == key_index(entries_view(m@), key@),
            None => key_index(entries_view(m@), key@) == -1,
        },
{
    let ghost ev = entries_view(m@);
    proof {
        lemma_key_index(ev, key@);
    }
    let mut i: usize = 0;
    while i < m.len()
        invariant
            ev == entries_view(m@),
            i <= m@.len(),
            forall|k: int| 0 <= k < i ==> #[trigger] ev[k].0 != key@,
            -1 <= key_index(ev, key@) < ev.len(),
            key_index(ev, key@) >= 0 ==> ev[key_index(ev, key@)].0 == key@,
            key_index(ev, key@) == -1 ==> forall|k: int| 0 <= k < ev.len() ==> #[trigger] ev[k].0 != key@,
            forall|k: int| 0 <= k < key_index(ev, key@) ==> #[trigger] ev[k].0 != key@,
        decreases m@.len() - i,
    {
        if m[i].0 == *key {
            assert(ev[i as int].0 == key@);
            proof {
                let ki = key_index(ev, key@);
                if ki < i {
                    if ki >= 0 {
                        assert(ev[ki].0 != key@);
                    } else {
                        assert(ev[i as int].0 != key@);
                    }
                } else if ki > i {
                    assert(ev[i as int].0 != key@);
                }
            }
            return Some(i);
        }
        i = i + 1;
    }
    None
}

/// Removes the entry under `key`, returning its value.
pub fn remove_key(m: &mut Vec<(String, JsonValue)>, key: &String) -> (r: Option<JsonValue>)
    ensures
        entries_view(final(m)@) == obj_remove(entries_view(old(m)@), key@),
        keys_unique(entries_view(old(m)@)) ==> keys_unique(entries_view(final(m)@)),
        match r {
            Some(v) => obj_get(entries_view(old(m)@), key@) == Some(json_view(v)),
            None => obj_get(entries_view(old(m)@), key@) is None,
        },
{
    let ghost ev = entries_view(m@);
    proof {
        if keys_unique(ev) {
            lemma_keys_unique_kept(ev, key@, Json::Null);
        }
    }
    match find_key(m, key) {
        None => None,
        Some(i) => {
            let (_, v) = m.remove(i);
            assert(entries_view(m@) =~= ev.remove(i as int));
            Some(v)
        },
    }
}

/// Sets `value` under `key`, in place of the old value or as a new last
/// entry.
pub fn insert_key(m: &mut Vec<(String, JsonValue)>, key: String, value: JsonValue)
    ensures
        entries_view(final(m)@) == obj_insert(entries_view(old(m)@), key@, json_view(value)),
        keys_unique(entries_view(old(m)@)) ==> keys_unique(entries_view(final(m)@)),
{
    let ghost ev = entries_view(m@);
    proof {
        if keys_unique(ev) {
            lemma_keys_unique_kept(ev, key@, json_view(value));
        }
    }
    let ghost kv = key@;
    let ghost vv = json_view(value);
    match find_key(m, &key) {
        None => {
            m.push((key, value));
            assert(entries_view(m@) =~= ev.push((kv, vv)));
        },
        Some(i) => {
            m[i] = (key, value);
            assert(entries_view(m@) =~= ev.update(i as int, (kv, vv)));
        },
    }
}

/// Takes out the value of entry `i`, leaving `Null` in its place.
pub fn take_value(m: &mut Vec<(String, JsonValue)>, i: usize) -> (r: (String, JsonValue))
    requires
        i < old(m)@.len(),
    ensures
        final(m)@.len() == old(m)@.len(),
        r == old(m)@[i as int],
        entries_view(final(m)@) == entries_view(old(m)@).update(i as int, (r.0@, Json::Null)),
        keys_unique(entries_view(old(m)@)) ==> keys_unique(entries_view(final(m)@)),
{
    let ghost ev = entries_view(m@);
    proof {
        if keys_unique(ev) {
            lemma_keys_unique_kept(ev, ev[0].0, Json::Null);
        }
    }
    let entry = m.remove(i);
    let key = entry.0.clone();
    m.insert(i, (key, JsonValue::Null));
    assert(entries_view(m@) =~= ev.update(i as int, (entry.0@, Json::Null)));
    assert(entry.0@ == ev[i as int].0);
    assert(keys_unique(ev) ==> keys_unique(ev.update(i as int, (ev[i as int].0, Json::Null))));
    entry
}

/// Puts `value` back as the value of entry `i`, under `key`.
pub fn put_value(m: &mut Vec<(String, JsonValue)>, i: usize, key: String, value: JsonValue)
    requires
        i < old(m)@.len(),
    ensures
        final(m)@.len() == old(m)@.len(),
        entries_view(final(m)@) == entries_view(old(m)@).update(i as int, (key@, json_view(value))),
        keys_unique(entries_view(old(m)@)) && key@ == entries_view(old(m)@)[i as int].0 ==> keys_unique(
            entries_view(final(m)@),
        ),
{
    let ghost ev = entries_view(m@);
    proof {
        if keys_unique(ev) {
            lemma_keys_unique_kept(ev, key@, json_view(value));
        }
    }
    let ghost kv = key@;
    let ghost vv = json_view(value);
    m[i] = (key, value);
    assert(entries_view(m@) =~= ev.update(i as int, (kv, vv)));
}

/// Whether an entry with key `key` exists.
pub fn has_key(m: &Vec<(String, JsonValue)>, key: &String) -> (r: bool)
    ensures
        r == (obj_get(entries_view(m@), key@) is Some),
{
    proof {
        lemma_key_index(entries_view(m@), key@);
    }
    find_key(m, key).is_some()
}

/// The position of a key depends on the keys alone.
pub proof fn lemma_key_index_keys(a: Seq<(Seq<char>, Json)>, b: Seq<(Seq<char>, Json)>, key: Seq<char>)
    requires
        a.len() == b.len(),
        forall|k: int| 0 <= k < a.len() ==> #[trigger] a[k].0 == b[k].0,
    ensures
        key_index(a, key) == key_index(b, key),
    decreases a.len(),
{
    if a.len() > 0 {
        assert forall|k: int| 0 <= k < a.len() - 1 implies #[trigger] a.drop_last()[k].0 == b.drop_last()[k].0 by {
            assert(a.drop_last()[k] == a[k] && b.drop_last()[k] == b[k]);
        }
        lemma_key_index_keys(a.drop_last(), b.drop_last(), key);
    }
}

/// After an insert the key holds the inserted value.
pub proof fn lemma_insert_get(m: Seq<(Seq<char>, Json)>, key: Seq<char>, value: Json)
    ensures
        0 <= key_index(obj_insert(m, key, value), key),
        key_index(obj_insert(m, key, value), key) == if key_index(m, key) >= 0 {
            key_index(m, key)
        } else {
            m.len() as int
        },
        obj_get(obj_insert(m, key, value), key) == Some(value),
{
    lemma_key_index(m, key);
    let n = obj_insert(m, key, value);
    let i = key_index(m, key);
    if i >= 0 {
        lemma_key_index_keys(m, n, key);
    } else {
        assert(n.drop_last() =~= m);
    }
}

} // verus!
