//! The library's own JSON value, and the sorted key/value object it holds.
//!
//! Numbers that the parser reads as floating point are kept as the raw bits of
//! the float (`F64`), so that every value here is made of integers, booleans,
//! strings and nested values.

use vstd::prelude::*;
use crate::keys::{KeyOrder, compare_keys, key_lt, lemma_key_lt_irreflexive, lemma_key_lt_transitive};

verus! {

/// A JSON document.
#[derive(Debug, PartialEq, Eq, PartialOrd, Ord, Hash)]
pub enum JsonValue {
    I64(i64),
    /// A floating-point number, held as the bit pattern of its `f64`.
    F64(i64),
    U64(u64),
    String(String),
    Boolean(bool),
    Array(Vec<JsonValue>),
    Object(JsonObject),
    Null,
}

/// A JSON object: each key at most once, kept in ascending key order.
#[derive(Debug, PartialEq, Eq, PartialOrd, Ord, Hash)]
pub struct JsonObject {
    entries: Vec<(String, JsonValue)>,
}

/// Every key of `s` sorts strictly before every key that follows it.
pub open spec fn keys_sorted(s: Seq<Seq<char>>) -> bool {
    forall|i: int, j: int| 0 <= i < j < s.len() ==> key_lt(#[trigger] s[i], #[trigger] s[j])
}

/// In a sorted key sequence a key occurs at one position only.
pub proof fn lemma_sorted_keys_unique(s: Seq<Seq<char>>, i: int, j: int)
    requires
        keys_sorted(s),
        0 <= i < s.len(),
        0 <= j < s.len(),
        s[i] == s[j],
    ensures
        i == j,
{
    if i < j {
        lemma_key_lt_irreflexive(s[i]);
    } else if j < i {
        lemma_key_lt_irreflexive(s[i]);
    }
}

/// The position of key `k` in `s`, where it occurs.
pub open spec fn key_position(s: Seq<Seq<char>>, k: Seq<char>) -> int {
    choose|i: int| 0 <= i < s.len() && s[i] == k
}

/// The map that pairs each key of `keys` with the value at the same position.
pub open spec fn assoc_map(keys: Seq<Seq<char>>, values: Seq<JsonValue>) -> Map<Seq<char>, JsonValue> {
    Map::new(|k: Seq<char>| keys.contains(k), |k: Seq<char>| values[key_position(keys, k)])
}

/// With sorted keys, each key maps to the value at its own position.
pub proof fn lemma_assoc_lookup(keys: Seq<Seq<char>>, values: Seq<JsonValue>)
    requires
        keys_sorted(keys),
    ensures
        assoc_map(keys, values).dom() == keys.to_set(),
        forall|i: int| 0 <= i < keys.len() ==> #[trigger] assoc_map(keys, values)[keys[i]] == values[i],
{
    assert(assoc_map(keys, values).dom() =~= keys.to_set());
    assert forall|i: int| 0 <= i < keys.len() implies #[trigger] assoc_map(keys, values)[keys[i]] == values[i] by {
        let p = key_position(keys, keys[i]);
        assert(keys.contains(keys[i]));
        lemma_sorted_keys_unique(keys, i, p);
    }
}

/// Replacing the value at a position replaces it in the map.
pub proof fn lemma_assoc_update(keys: Seq<Seq<char>>, values: Seq<JsonValue>, i: int, v: JsonValue)
    requires
        keys_sorted(keys),
        keys.len() == values.len(),
        0 <= i < keys.len(),
    ensures
        assoc_map(keys, values.update(i, v)) == assoc_map(keys, values).insert(keys[i], v),
{
    let m1 = assoc_map(keys, values.update(i, v));
    let m2 = assoc_map(keys, values).insert(keys[i], v);
    lemma_assoc_lookup(keys, values);
    lemma_assoc_lookup(keys, values.update(i, v));
    assert(m1.dom() =~= m2.dom());
    assert forall|k: Seq<char>| m1.contains_key(k) implies m1[k] == m2[k] by {
        let j = choose|j: int| 0 <= j < keys.len() && keys[j] == k;
        assert(m1[keys[j]] == values.update(i, v)[j]);
        if j != i {
            assert(keys[j] != keys[i]) by {
                if keys[j] == keys[i] {
                    lemma_sorted_keys_unique(keys, i, j);
                }
            }
        }
    }
    assert(m1 =~= m2);
}

/// Inserting a new key at its sorted position adds it to the map.
pub proof fn lemma_assoc_insert(keys: Seq<Seq<char>>, values: Seq<JsonValue>, i: int, k: Seq<char>, v: JsonValue)
    requires
        keys_sorted(keys),
        keys_sorted(keys.insert(i, k)),
        keys.len() == values.len(),
        0 <= i <= keys.len(),
    ensures
        assoc_map(keys.insert(i, k), values.insert(i, v)) == assoc_map(keys, values).insert(k, v),
{
    let nk = keys.insert(i, k);
    let nv = values.insert(i, v);
    let m1 = assoc_map(nk, nv);
    let m2 = assoc_map(keys, values).insert(k, v);
    lemma_assoc_lookup(keys, values);
    lemma_assoc_lookup(nk, nv);
    assert forall|kk: Seq<char>| m1.contains_key(kk) <==> m2.contains_key(kk) by {
        if nk.contains(kk) {
            let j = choose|j: int| 0 <= j < nk.len() && nk[j] == kk;
            if j < i {
                assert(keys[j] == kk);
            } else if j > i {
                assert(keys[j - 1] == kk);
            }
        }
        if keys.contains(kk) {
            let j = choose|j: int| 0 <= j < keys.len() && keys[j] == kk;
            if j < i {
                assert(nk[j] == kk);
            } else {
                assert(nk[j + 1] == kk);
            }
        }
        assert(nk[i] == k);
    }
    assert(m1.dom() =~= m2.dom());
    assert forall|kk: Seq<char>| m1.contains_key(kk) implies m1[kk] == m2[kk] by {
        let j = choose|j: int| 0 <= j < nk.len() && nk[j] == kk;
        assert(m1[nk[j]] == nv[j]);
        if j == i {
        } else {
            assert(kk != k) by {
                if kk == k {
                    lemma_sorted_keys_unique(nk, i, j);
                }
            }
            if j < i {
                assert(keys[j] == kk);
                assert(assoc_map(keys, values)[keys[j]] == values[j]);
            } else {
                assert(keys[j - 1] == kk);
                assert(assoc_map(keys, values)[keys[j - 1]] == values[j - 1]);
            }
        }
    }
    assert(m1 =~= m2);
}

impl JsonObject {
    #[verifier::type_invariant]
    spec fn sorted(self) -> bool {
        keys_sorted(self.entries@.map_values(|e: (String, JsonValue)| e.0@))
    }

    /// The keys, in the order in which the object holds them.
    pub closed spec fn keys(&self) -> Seq<Seq<char>> {
        self.entries@.map_values(|e: (String, JsonValue)| e.0@)
    }

    /// The values, position by position with `keys`.
    pub closed spec fn values(&self) -> Seq<JsonValue> {
        self.entries@.map_values(|e: (String, JsonValue)| e.1)
    }

    /// With sorted keys, the object maps each key to the value at its position.
    proof fn lemma_shape(&self)
        requires
            keys_sorted(self.keys()),
        ensures
            self.keys().len() == self.values().len(),
            self@ == assoc_map(self.keys(), self.values()),
            self@.dom() == self.keys().to_set(),
            forall|i: int| 0 <= i < self.keys().len() ==> #[trigger] self@[self.keys()[i]] == self.values()[i],
    {
        lemma_assoc_lookup(self.keys(), self.values());
    }

    /// An empty object.
    pub fn new() -> (r: JsonObject)
        ensures
            r@ == Map::<Seq<char>, JsonValue>::empty(),
            r.keys().len() == 0,
    {
        let r = JsonObject { entries: Vec::new() };
        assert(r@ =~= Map::<Seq<char>, JsonValue>::empty());
        r
    }

    /// The number of keys.
    pub fn len(&self) -> (n: usize)
        ensures
            keys_sorted(self.keys()),
            n == self.keys().len(),
            n == self@.dom().len(),
    {
        proof {
            use_type_invariant(self);
            self.lemma_shape();
            self.keys().unique_seq_to_set();
        }
        self.entries.len()
    }

    /// The value stored under `key`, if any.
    pub fn get(&self, key: &str) -> (r: Option<&JsonValue>)
        ensures
            match r {
                Some(v) => self@.contains_key(key@) && *v == self@[key@],
                None => !self@.contains_key(key@),
            },
    {
        proof {
            use_type_invariant(self);
            self.lemma_shape();
        }
        let n = self.entries.len();
        let mut i: usize = 0;
        while i < n
            invariant
                n == self.entries@.len(),
                i <= n,
                forall|j: int| 0 <= j < i ==> self.keys()[j] != key@,
            decreases n - i,
        {
            let order = compare_keys(self.entries[i].0.as_str(), key);
            if order == KeyOrder::Same {
                proof {
                    use_type_invariant(self);
                    self.lemma_shape();
                }
                assert(self.keys()[i as int] == key@);
                assert(self@[self.keys()[i as int]] == self.values()[i as int]);
                return Some(&self.entries[i].1);
            }
            i = i + 1;
        }
        assert(!self.keys().contains(key@));
        None
    }

    /// The key and value at position `i`, in ascending key order.
    pub fn entry_at(&self, i: usize) -> (r: (&String, &JsonValue))
        requires
            i < self.keys().len(),
        ensures
            keys_sorted(self.keys()),
            r.0@ == self.keys()[i as int],
            *r.1 == self.values()[i as int],
            *r.1 == self@[r.0@],
    {
        proof {
            use_type_invariant(self);
            self.lemma_shape();
            assert(self@[self.keys()[i as int]] == self.values()[i as int]);
        }
        (&self.entries[i].0, &self.entries[i].1)
    }

    /// Stores `value` under `key`, giving back the value that was there.
    pub fn insert(&mut self, key: String, value: JsonValue) -> (previous: Option<JsonValue>)
        ensures
            final(self)@ == old(self)@.insert(key@, value),
            previous == (if old(self)@.contains_key(key@) {
                Some(old(self)@[key@])
            } else {
                None
            }),
    {
        proof {
            use_type_invariant(&*self);
            self.lemma_shape();
        }
        let ghost old_keys = self.keys();
        let ghost old_values = self.values();
        let mut entries: Vec<(String, JsonValue)> = Vec::new();
        std::mem::swap(&mut entries, &mut self.entries);
        let n = entries.len();
        let mut i: usize = 0;
        while i < n && compare_keys(entries[i].0.as_str(), key.as_str()) == KeyOrder::Before
            invariant
                n == entries@.len(),
                i <= n,
                entries@ == old(self).entries@,
                old_keys == entries@.map_values(|e: (String, JsonValue)| e.0@),
                forall|j: int| 0 <= j < i ==> key_lt(#[trigger] old_keys[j], key@),
            decreases n - i,
        {
            i = i + 1;
        }
        let ghost k = key@;
        let previous;
        if i < n && compare_keys(entries[i].0.as_str(), key.as_str()) == KeyOrder::Same {
            let old_entry = entries.remove(i);
            entries.insert(i, (key, value));
            previous = Some(old_entry.1);
            proof {
                let ks = entries@.map_values(|e: (String, JsonValue)| e.0@);
                let vs = entries@.map_values(|e: (String, JsonValue)| e.1);
                assert(ks =~= old_keys);
                assert(vs =~= old_values.update(i as int, value));
                assert(old_keys[i as int] == k);
                assert(old_values[i as int] == old_entry.1);
                lemma_assoc_update(old_keys, old_values, i as int, value);
            }
        } else {
            proof {
                if i < n {
                    assert(key_lt(k, old_keys[i as int]));
                }
                assert forall|j: int| 0 <= j < n implies old_keys[j] != k by {
                    if j < i {
                        lemma_key_lt_irreflexive(k);
                    } else {
                        assert(key_lt(k, old_keys[i as int]));
                        if j > i {
                            lemma_key_lt_transitive(k, old_keys[i as int], old_keys[j]);
                        }
                        lemma_key_lt_irreflexive(k);
                    }
                }
            }
            entries.insert(i, (key, value));
            previous = None;
            proof {
                let ks = entries@.map_values(|e: (String, JsonValue)| e.0@);
                assert(ks =~= old_keys.insert(i as int, k));
                assert forall|a: int, b: int| 0 <= a < b < ks.len() implies key_lt(
                    #[trigger] ks[a],
                    #[trigger] ks[b],
                ) by {
                    if b == i {
                    } else if a == i {
                        if b - 1 > i {
                            lemma_key_lt_transitive(k, old_keys[i as int], old_keys[b - 1]);
                        }
                    } else if a < i && b > i {
                    } else if a > i {
                    }
                }
                let vs = entries@.map_values(|e: (String, JsonValue)| e.1);
                assert(vs =~= old_values.insert(i as int, value));
                lemma_assoc_insert(old_keys, old_values, i as int, k, value);
            }
        }
        self.entries = entries;
        proof {
            use_type_invariant(&*self);
            self.lemma_shape();
        }
        previous
    }
}

impl View for JsonObject {
    type V = Map<Seq<char>, JsonValue>;

    closed spec fn view(&self) -> Map<Seq<char>, JsonValue> {
        assoc_map(self.keys(), self.values())
    }
}

/// `a` and `b` hold the same document: the same variant, equal numbers and
/// booleans, strings with the same characters, and, item by item or key by
/// key, the same nested documents.
pub closed spec fn same_value(a: JsonValue, b: JsonValue) -> bool
    decreases a,
{
    match (a, b) {
        (JsonValue::I64(x), JsonValue::I64(y)) => x == y,
        (JsonValue::F64(x), JsonValue::F64(y)) => x == y,
        (JsonValue::U64(x), JsonValue::U64(y)) => x == y,
        (JsonValue::String(x), JsonValue::String(y)) => x@ == y@,
        (JsonValue::Boolean(x), JsonValue::Boolean(y)) => x == y,
        (JsonValue::Array(x), JsonValue::Array(y)) => {
            &&& x@.len() == y@.len()
            &&& forall|i: int| 0 <= i < x@.len() ==> same_value(#[trigger] x@[i], y@[i])
        },
        (JsonValue::Object(x), JsonValue::Object(y)) => {
            &&& x.entries@.len() == y.entries@.len()
            &&& forall|i: int|
                0 <= i < x.entries@.len() ==> (#[trigger] x.entries@[i]).0@ == y.entries@[i].0@
                    && same_value(x.entries@[i].1, y.entries@[i].1)
        },
        (JsonValue::Null, JsonValue::Null) => true,
        _ => false,
    }
}

/// `a` and `b` are objects with the same keys in the same order, and the same
/// document under each.
pub closed spec fn same_object(a: JsonObject, b: JsonObject) -> bool {
    same_value(JsonValue::Object(a), JsonValue::Object(b))
}

/// What `same_value` says, one level down: equal numbers and booleans,
/// strings with the same characters, arrays of the same length whose items
/// are the same documents, objects with the same keys in the same order
/// whose values are the same documents.
pub proof fn lemma_same_value_unfold(a: JsonValue, b: JsonValue)
    ensures
        same_value(a, b) <==> match (a, b) {
            (JsonValue::I64(x), JsonValue::I64(y)) => x == y,
            (JsonValue::F64(x), JsonValue::F64(y)) => x == y,
            (JsonValue::U64(x), JsonValue::U64(y)) => x == y,
            (JsonValue::String(x), JsonValue::String(y)) => x@ == y@,
            (JsonValue::Boolean(x), JsonValue::Boolean(y)) => x == y,
            (JsonValue::Array(x), JsonValue::Array(y)) => {
                &&& x@.len() == y@.len()
                &&& forall|i: int| 0 <= i < x@.len() ==> same_value(#[trigger] x@[i], y@[i])
            },
            (JsonValue::Object(x), JsonValue::Object(y)) => {
                &&& x.keys() == y.keys()
                &&& x.values().len() == y.values().len()
                &&& forall|i: int| 0 <= i < x.values().len() ==> same_value(#[trigger] x.values()[i], y.values()[i])
            },
            (JsonValue::Null, JsonValue::Null) => true,
            _ => false,
        },
{
    if let (JsonValue::Object(x), JsonValue::Object(y)) = (a, b) {
        if x.entries@.len() == y.entries@.len() {
            let sv = forall|i: int| 0 <= i < x.entries@.len() ==> (#[trigger] x.entries@[i]).0@ == y.entries@[i].0@
                && same_value(x.entries@[i].1, y.entries@[i].1);
            if sv {
                assert(x.keys() =~= y.keys());
            }
            if x.keys() == y.keys() && forall|i: int| 0 <= i < x.values().len() ==> same_value(#[trigger] x.values()[i], y.values()[i]) {
                assert forall|i: int| 0 <= i < x.entries@.len() implies (#[trigger] x.entries@[i]).0@ == y.entries@[i].0@
                    && same_value(x.entries@[i].1, y.entries@[i].1) by {
                    assert(x.keys()[i] == y.keys()[i]);
                    assert(same_value(x.values()[i], y.values()[i]));
                }
            }
        } else {
            if x.keys() == y.keys() {
                assert(x.keys().len() == y.keys().len());
            }
        }
    }
}

/// Every document is the same as itself.
pub proof fn lemma_same_value_reflexive(a: JsonValue)
    ensures
        same_value(a, a),
    decreases a,
{
    match a {
        JsonValue::Array(x) => {
            assert forall|i: int| 0 <= i < x@.len() implies same_value(#[trigger] x@[i], x@[i]) by {
                assert(decreases_to!(a => x@[i])) by {
                    vstd::std_specs::vec::axiom_vec_index_decreases(x, i);
                    assert(decreases_to!(a => a->Array_0));
                }
                lemma_same_value_reflexive(x@[i]);
            }
        },
        JsonValue::Object(x) => {
            assert forall|i: int| 0 <= i < x.entries@.len() implies (#[trigger] x.entries@[i]).0@ == x.entries@[i].0@
                && same_value(x.entries@[i].1, x.entries@[i].1) by {
                assert(decreases_to!(a => x.entries@[i].1)) by {
                    vstd::std_specs::vec::axiom_vec_index_decreases(x.entries, i);
                    assert(decreases_to!(a => a->Object_0));
                }
                lemma_same_value_reflexive(x.entries@[i].1);
            }
        },
        _ => {},
    }
}

/// A copy of `v`.
fn clone_value(v: &JsonValue) -> (r: JsonValue)
    ensures
        same_value(r, *v),
    decreases *v,
{
    match v {
        JsonValue::I64(x) => JsonValue::I64(*x),
        JsonValue::F64(x) => JsonValue::F64(*x),
        JsonValue::U64(x) => JsonValue::U64(*x),
        JsonValue::String(s) => JsonValue::String(s.clone()),
        JsonValue::Boolean(b) => JsonValue::Boolean(*b),
        JsonValue::Array(items) => {
            let mut out: Vec<JsonValue> = Vec::new();
            let n = items.len();
            let mut i: usize = 0;
            while i < n
                invariant
                    *v == JsonValue::Array(*items),
                    n == items@.len(),
                    i <= n,
                    out@.len() == i,
                    forall|j: int| 0 <= j < i ==> same_value(#[trigger] out@[j], items@[j]),
                decreases n - i,
            {
                proof {
                    assert(decreases_to!(*v => items@[i as int])) by {
                        vstd::std_specs::vec::axiom_vec_index_decreases(*items, i as int);
                        assert(decreases_to!(*v => (*v)->Array_0));
                        assert(decreases_to!(*items => items@[i as int]));
                    }
                }
                let c = clone_value(&items[i]);
                out.push(c);
                i = i + 1;
            }
            JsonValue::Array(out)
        },
        JsonValue::Object(o) => JsonValue::Object(clone_object(o)),
        JsonValue::Null => JsonValue::Null,
    }
}

/// A copy of `o`.
fn clone_object(o: &JsonObject) -> (r: JsonObject)
    ensures
        same_object(r, *o),
        r.keys() == o.keys(),
    decreases *o,
{
    proof {
        use_type_invariant(o);
    }
    let mut out: Vec<(String, JsonValue)> = Vec::new();
    let n = o.entries.len();
    let mut i: usize = 0;
    while i < n
        invariant
            n == o.entries@.len(),
            i <= n,
            out@.len() == i,
            forall|j: int| 0 <= j < i ==> (#[trigger] out@[j]).0@ == o.entries@[j].0@
                && same_value(out@[j].1, o.entries@[j].1),
        decreases n - i,
    {
        proof {
            assert(decreases_to!(*o => o.entries@[i as int].1)) by {
                vstd::std_specs::vec::axiom_vec_index_decreases(o.entries, i as int);
            }
        }
        let k = o.entries[i].0.clone();
        let c = clone_value(&o.entries[i].1);
        out.push((k, c));
        i = i + 1;
    }
    proof {
        let ks = out@.map_values(|e: (String, JsonValue)| e.0@);
        assert(ks =~= o.keys());
    }
    let r = JsonObject { entries: out };
    proof {
        assert(r.keys() =~= o.keys());
    }
    r
}

impl Clone for JsonValue {
    /// A copy holding the same document.
    fn clone(&self) -> (r: Self)
        ensures
            same_value(r, *self),
    {
        clone_value(self)
    }
}

impl Clone for JsonObject {
    /// A copy with the same keys, in the same order, and the same documents.
    fn clone(&self) -> (r: Self)
        ensures
            same_object(r, *self),
            r.keys() == self.keys(),
    {
        clone_object(self)
    }
}

} // verus!
