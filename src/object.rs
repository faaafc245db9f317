//! The insertion-ordered map from string keys to JSON values.
use vstd::prelude::*;

use indexmap::IndexMap;

use vstd::utf8::encode_utf8;

use crate::validity::lemma_text_valid;
use crate::codegen::{json_text, write_object, DumpGenerator, Generator, PrettyGenerator};
use crate::value::{JsonValue, JsonModel, model_eq, values_equal, wf_model, lemma_model_eq_reflexive};

verus! {

/// An insertion-ordered map from unique string keys to JSON values.
///
/// Relies on `IndexMap` for its type invariant (`well_formed`): an
/// `IndexMap` never holds two equal keys, and its values are `JsonValue`s,
/// whose nested objects are `Object`s again. The map is held opaquely because
/// a recursive value type cannot name `IndexMap<String, JsonValue>` directly.
/// `Clone` is not derived: the opaque struct admits no constructor in
/// verified code.
#[verifier::external_body]
#[derive(Debug)]
pub struct Object {
    inner: IndexMap<String, JsonValue>,
}

/// The entries of an object, in iteration order, as keys and value models.
pub uninterp spec fn object_entries(o: Object) -> Seq<(Seq<char>, JsonModel)>;

/// The position of `k` among the keys of `e`, if it is there.
pub open spec fn key_index(e: Seq<(Seq<char>, JsonModel)>, k: Seq<char>) -> Option<int> {
    if exists|i: int| 0 <= i < e.len() && e[i].0 == k {
        Some(choose|i: int| 0 <= i < e.len() && e[i].0 == k)
    } else {
        None
    }
}

/// No two entries share a key.
pub open spec fn unique_keys(e: Seq<(Seq<char>, JsonModel)>) -> bool {
    forall|i: int, j: int| 0 <= i < e.len() && 0 <= j < e.len() && i != j ==> e[i].0 != e[j].0
}

/// The entries after `insert(k, v)`: the value replaced in place when the key
/// is there, else the entry appended.
pub open spec fn inserted(e: Seq<(Seq<char>, JsonModel)>, k: Seq<char>, v: JsonModel) -> Seq<(Seq<char>, JsonModel)> {
    match key_index(e, k) {
        Some(i) => e.update(i, (k, v)),
        None => e.push((k, v)),
    }
}

/// The entries after making sure `k` is there, with `null` appended if it was not.
pub open spec fn inserted_if_absent(e: Seq<(Seq<char>, JsonModel)>, k: Seq<char>) -> Seq<(Seq<char>, JsonModel)> {
    if key_index(e, k) is Some {
        e
    } else {
        e.push((k, JsonModel::Null))
    }
}

/// The entries after removing position `i` by moving the last entry into it.
pub open spec fn swap_removed(e: Seq<(Seq<char>, JsonModel)>, i: int) -> Seq<(Seq<char>, JsonModel)> {
    if i == e.len() - 1 {
        e.drop_last()
    } else {
        e.drop_last().update(i, e.last())
    }
}

/// The entries after inserting each pair of `pairs` in turn into `e`.
pub open spec fn insert_all(e: Seq<(Seq<char>, JsonModel)>, pairs: Seq<(Seq<char>, JsonModel)>) -> Seq<(Seq<char>, JsonModel)>
    decreases pairs.len(),
{
    if pairs.len() == 0 {
        e
    } else {
        let last = pairs.last();
        inserted(insert_all(e, pairs.drop_last()), last.0, last.1)
    }
}

/// The keys of the entries, in iteration order.
pub open spec fn keys_of(e: Seq<(Seq<char>, JsonModel)>) -> Seq<Seq<char>> {
    Seq::new(e.len(), |i: int| e[i].0)
}

/// Inserting under a key that is already there changes no position: the keys
/// come in the same order, and only that key's value is new.
pub proof fn lemma_insert_existing_keeps_position(e: Seq<(Seq<char>, JsonModel)>, k: Seq<char>, v: JsonModel)
    requires
        key_index(e, k) is Some,
    ensures
        keys_of(inserted(e, k, v)) == keys_of(e),
        inserted(e, k, v)[key_index(e, k)->0] == (k, v),
        forall|j: int| 0 <= j < e.len() && j != key_index(e, k)->0 ==> #[trigger] inserted(e, k, v)[j] == e[j],
{
    let i = key_index(e, k)->0;
    assert(e[i].0 == k);
    assert(keys_of(inserted(e, k, v)) =~= keys_of(e));
}

/// Inserting a new key puts it after all the others.
pub proof fn lemma_insert_new_appends(e: Seq<(Seq<char>, JsonModel)>, k: Seq<char>, v: JsonModel)
    requires
        key_index(e, k) is None,
    ensures
        keys_of(inserted(e, k, v)) == keys_of(e).push(k),
{
    assert(keys_of(inserted(e, k, v)) =~= keys_of(e).push(k));
}

/// Order-preserving removal: the remaining keys come in their earlier
/// relative order.
pub proof fn lemma_shift_remove_keeps_order(e: Seq<(Seq<char>, JsonModel)>, i: int)
    requires
        0 <= i < e.len(),
    ensures
        keys_of(e.remove(i)) == keys_of(e).remove(i),
{
    assert(keys_of(e.remove(i)) =~= keys_of(e).remove(i));
}

/// Inserting pairs with distinct keys into an empty object yields them in
/// the order given.
pub proof fn lemma_insert_all_distinct(pairs: Seq<(Seq<char>, JsonModel)>)
    requires
        unique_keys(pairs),
    ensures
        insert_all(Seq::empty(), pairs) == pairs,
    decreases pairs.len(),
{
    if pairs.len() > 0 {
        let init = pairs.drop_last();
        assert(unique_keys(init));
        lemma_insert_all_distinct(init);
        let last = pairs.last();
        assert(!exists|i: int| 0 <= i < init.len() && init[i].0 == last.0) by {
            if exists|i: int| 0 <= i < init.len() && init[i].0 == last.0 {
                let i = choose|i: int| 0 <= i < init.len() && init[i].0 == last.0;
                assert(pairs[i].0 == pairs[pairs.len() - 1].0);
            }
        }
        assert(init.push(last) =~= pairs);
    }
}

/// Two objects built by inserting the same pairs, with distinct keys, in
/// different orders are equal.
pub proof fn lemma_insert_order_irrelevant(p: Seq<(Seq<char>, JsonModel)>, q: Seq<(Seq<char>, JsonModel)>)
    requires
        unique_keys(p),
        unique_keys(q),
        p.len() == q.len(),
        forall|i: int| 0 <= i < p.len() ==> exists|j: int| 0 <= j < q.len() && #[trigger] q[j] == #[trigger] p[i],
        forall|i: int| 0 <= i < p.len() ==> wf_model(#[trigger] p[i].1),
    ensures
        model_eq(
            JsonModel::Obj(insert_all(Seq::empty(), p)),
            JsonModel::Obj(insert_all(Seq::empty(), q)),
        ),
{
    lemma_insert_all_distinct(p);
    lemma_insert_all_distinct(q);
    assert forall|i: int| 0 <= i < p.len() implies match key_index(q, #[trigger] p[i].0) {
        Some(j) => model_eq(p[i].1, q[j].1),
        None => false,
    } by {
        let j = choose|j: int| 0 <= j < q.len() && q[j] == p[i];
        assert(q[j].0 == p[i].0);
        let j2 = key_index(q, p[i].0)->0;
        assert(q[j2].0 == p[i].0);
        assert(j2 == j);
        lemma_model_eq_reflexive(p[i].1);
    }
}

/// Relies on `IndexMap::new`: a map with no entries.
#[verifier::external_body]
fn map_new() -> (r: Object)
    ensures
        object_entries(r) == Seq::<(Seq<char>, JsonModel)>::empty(),
{
    Object { inner: IndexMap::new() }
}

/// The largest capacity hint passed on; allocation for more entries than
/// this happens as they are inserted.
pub const CAPACITY_HINT_LIMIT: usize = 16777216;

/// Relies on `IndexMap::with_capacity`: a map with no entries. Hints that
/// would overflow the allocation size panic there, so they are kept small.
#[verifier::external_body]
fn map_with_capacity(n: usize) -> (r: Object)
    requires
        n <= CAPACITY_HINT_LIMIT,
    ensures
        object_entries(r) == Seq::<(Seq<char>, JsonModel)>::empty(),
{
    Object { inner: IndexMap::with_capacity(n) }
}

/// Relies on `IndexMap::insert`: an existing key keeps its position and gets
/// the new value; a new key is appended.
#[verifier::external_body]
fn map_insert(o: &mut Object, key: &str, value: JsonValue)
    ensures
        object_entries(*final(o)) == inserted(object_entries(*old(o)), key@, value@),
{
    o.inner.insert(key.to_string(), value);
}

/// Relies on `IndexMap::get`: the value of the entry with this key.
#[verifier::external_body]
fn map_get<'a>(o: &'a Object, key: &str) -> (r: Option<&'a JsonValue>)
    ensures
        r is Some <==> key_index(object_entries(*o), key@) is Some,
        r is Some ==> forall|j: int|
            0 <= j < object_entries(*o).len() && object_entries(*o)[j].0 == key@
                ==> (#[trigger] object_entries(*o)[j]).1 == r->0@,
{
    o.inner.get(key)
}

/// Relies on `IndexMap::get_index`: the entry at a position.
#[verifier::external_body]
fn map_get_index<'a>(o: &'a Object, i: usize) -> (r: Option<(&'a String, &'a JsonValue)>)
    ensures
        r is Some <==> i < object_entries(*o).len(),
        r is Some ==> (r->0).0@ == object_entries(*o)[i as int].0 && (r->0).1@ == object_entries(*o)[i as int].1,
{
    o.inner.get_index(i)
}

/// Relies on `IndexMap::get_mut`: a handle to the value of the entry with
/// this key; what is stored through it becomes that entry's value.
#[verifier::external_body]
fn map_get_mut<'a>(o: &'a mut Object, key: &str) -> (r: Option<&'a mut JsonValue>)
    ensures
        r is Some <==> key_index(object_entries(*old(o)), key@) is Some,
        r is None ==> object_entries(*final(o)) == object_entries(*old(o)),
        r is Some ==> ({
            let i = key_index(object_entries(*old(o)), key@)->0;
            &&& (*r->0)@ == object_entries(*old(o))[i].1
            &&& object_entries(*final(o)) == object_entries(*old(o)).update(i, (key@, (*final(r->0))@))
        }),
{
    o.inner.get_mut(key)
}

/// Relies on `IndexMap::drain` over the full range: every entry is handed
/// out in iteration order and none is left.
#[verifier::external_body]
fn map_drain(o: &mut Object) -> (r: Vec<(String, JsonValue)>)
    ensures
        object_entries(*final(o)) == Seq::<(Seq<char>, JsonModel)>::empty(),
        r@.len() == object_entries(*old(o)).len(),
        forall|i: int| 0 <= i < r@.len() ==> (#[trigger] r@[i]).0@ == object_entries(*old(o))[i].0
            && r@[i].1@ == object_entries(*old(o))[i].1,
{
    o.inner.drain(..).collect()
}

/// Relies on `IndexMap::into_iter`: every entry, in iteration order.
#[verifier::external_body]
fn map_into_entries(o: Object) -> (r: Vec<(String, JsonValue)>)
    ensures
        r@.len() == object_entries(o).len(),
        forall|i: int| 0 <= i < r@.len() ==> (#[trigger] r@[i]).0@ == object_entries(o)[i].0
            && r@[i].1@ == object_entries(o)[i].1,
{
    o.inner.into_iter().collect()
}

/// Relies on `IndexMap::len`: the number of entries.
#[verifier::external_body]
fn map_len(o: &Object) -> (r: usize)
    ensures
        r == object_entries(*o).len(),
{
    o.inner.len()
}

/// Relies on `IndexMap::swap_remove`: the entry goes, and the last entry takes
/// its position.
#[verifier::external_body]
fn map_swap_remove(o: &mut Object, key: &str) -> (r: Option<JsonValue>)
    ensures
        match key_index(object_entries(*old(o)), key@) {
            Some(i) => r is Some && r->0@ == object_entries(*old(o))[i].1
                && object_entries(*final(o)) == swap_removed(object_entries(*old(o)), i),
            None => r is None && object_entries(*final(o)) == object_entries(*old(o)),
        },
{
    o.inner.swap_remove(key)
}

/// Relies on `IndexMap::shift_remove`: the entry goes, and the others keep
/// their order.
#[verifier::external_body]
fn map_shift_remove(o: &mut Object, key: &str) -> (r: Option<JsonValue>)
    ensures
        match key_index(object_entries(*old(o)), key@) {
            Some(i) => r is Some && r->0@ == object_entries(*old(o))[i].1
                && object_entries(*final(o)) == object_entries(*old(o)).remove(i),
            None => r is None && object_entries(*final(o)) == object_entries(*old(o)),
        },
{
    o.inner.shift_remove(key)
}

/// Relies on `IndexMap::clear`: no entries are left.
#[verifier::external_body]
fn map_clear(o: &mut Object)
    ensures
        object_entries(*final(o)) == Seq::<(Seq<char>, JsonModel)>::empty(),
{
    o.inner.clear();
}

impl Object {
    /// Every object has unique keys, and so does every object nested in its
    /// values.
    #[verifier::type_invariant]
    pub closed spec fn well_formed(self) -> bool {
        wf_model(JsonModel::Obj(object_entries(self)))
    }

    /// An empty object.
    pub fn new() -> (r: Object)
        ensures
            object_entries(r) == Seq::<(Seq<char>, JsonModel)>::empty(),
    {
        map_new()
    }

    /// An empty object with room for `capacity` entries (at most
    /// `CAPACITY_HINT_LIMIT` are reserved up front).
    pub fn with_capacity(capacity: usize) -> (r: Object)
        ensures
            object_entries(r) == Seq::<(Seq<char>, JsonModel)>::empty(),
    {
        if capacity <= CAPACITY_HINT_LIMIT {
            map_with_capacity(capacity)
        } else {
            map_with_capacity(CAPACITY_HINT_LIMIT)
        }
    }

    /// Inserts an entry, or replaces the value of an existing key in place.
    pub fn insert(&mut self, key: &str, value: JsonValue)
        ensures
            wf_model(JsonModel::Obj(object_entries(*final(self)))),
            object_entries(*final(self)) == inserted(object_entries(*old(self)), key@, value@),
    {
        map_insert(self, key, value);
        proof {
            use_type_invariant(&*self);
        }
    }

    /// The value stored under `key`, if any.
    pub fn get(&self, key: &str) -> (r: Option<&JsonValue>)
        ensures
            wf_model(JsonModel::Obj(object_entries(*self))),
            r is Some <==> key_index(object_entries(*self), key@) is Some,
            r is Some ==> r->0@ == object_entries(*self)[key_index(object_entries(*self), key@)->0].1,
    {
        proof {
            use_type_invariant(self);
        }
        let r = map_get(self, key);
        proof {
            if r is Some {
                let i = key_index(object_entries(*self), key@)->0;
                assert(object_entries(*self)[i].0 == key@);
            }
        }
        r
    }

    /// Removes the entry of `key` by moving the last entry into its place.
    pub fn remove(&mut self, key: &str) -> (r: Option<JsonValue>)
        ensures
            wf_model(JsonModel::Obj(object_entries(*final(self)))),
            match key_index(object_entries(*old(self)), key@) {
                Some(i) => r is Some && r->0@ == object_entries(*old(self))[i].1
                    && object_entries(*final(self)) == swap_removed(object_entries(*old(self)), i),
                None => r is None && object_entries(*final(self)) == object_entries(*old(self)),
            },
    {
        let r = map_swap_remove(self, key);
        proof {
            use_type_invariant(&*self);
        }
        r
    }

    /// Removes the entry of `key`; the remaining entries keep their order.
    pub fn shift_remove(&mut self, key: &str) -> (r: Option<JsonValue>)
        ensures
            wf_model(JsonModel::Obj(object_entries(*final(self)))),
            match key_index(object_entries(*old(self)), key@) {
                Some(i) => r is Some && r->0@ == object_entries(*old(self))[i].1
                    && object_entries(*final(self)) == object_entries(*old(self)).remove(i),
                None => r is None && object_entries(*final(self)) == object_entries(*old(self)),
            },
    {
        let r = map_shift_remove(self, key);
        proof {
            use_type_invariant(&*self);
        }
        r
    }

    pub fn len(&self) -> (r: usize)
        ensures
            wf_model(JsonModel::Obj(object_entries(*self))),
            r == object_entries(*self).len(),
    {
        proof {
            use_type_invariant(self);
        }
        map_len(self)
    }

    pub fn is_empty(&self) -> (r: bool)
        ensures
            r == (object_entries(*self).len() == 0),
    {
        map_len(self) == 0
    }

    /// Drops every entry.
    pub fn clear(&mut self)
        ensures
            object_entries(*final(self)) == Seq::<(Seq<char>, JsonModel)>::empty(),
    {
        map_clear(self)
    }

    /// The entry at position `i` of the iteration order.
    pub fn get_index(&self, i: usize) -> (r: Option<(&String, &JsonValue)>)
        ensures
            wf_model(JsonModel::Obj(object_entries(*self))),
            r is Some <==> i < object_entries(*self).len(),
            r is Some ==> (r->0).0@ == object_entries(*self)[i as int].0 && (r->0).1@ == object_entries(*self)[i as int].1,
    {
        proof {
            use_type_invariant(self);
        }
        map_get_index(self, i)
    }

    /// A handle to the value stored under `key`, if any.
    pub fn get_mut(&mut self, key: &str) -> (r: Option<&mut JsonValue>)
        ensures
            r is Some <==> key_index(object_entries(*old(self)), key@) is Some,
            r is None ==> object_entries(*final(self)) == object_entries(*old(self)),
            r is Some ==> ({
                let i = key_index(object_entries(*old(self)), key@)->0;
                &&& (*r->0)@ == object_entries(*old(self))[i].1
                &&& object_entries(*final(self)) == object_entries(*old(self)).update(i, (key@, (*final(r->0))@))
            }),
    {
        map_get_mut(self, key)
    }

    /// A handle to the value under `key`; a missing key is first inserted
    /// with `null` at the end.
    pub fn index_mut(&mut self, key: &str) -> (r: &mut JsonValue)
        ensures
            ({
                let e = inserted_if_absent(object_entries(*old(self)), key@);
                let i = key_index(e, key@)->0;
                &&& key_index(e, key@) is Some
                &&& (*r)@ == e[i].1
                &&& object_entries(*final(self)) == e.update(i, (key@, (*final(r))@))
            }),
    {
        if self.get(key).is_none() {
            self.insert(key, JsonValue::Null);
            proof {
                let e = object_entries(*self);
                assert(e[e.len() - 1].0 == key@);
            }
        }
        let ghost e = object_entries(*self);
        proof {
            assert(e == inserted_if_absent(object_entries(*old(self)), key@));
        }
        match map_get_mut(self, key) {
            Some(value) => value,
            None => vstd::pervasive::unreached(),
        }
    }

    /// The entries in iteration order. There is no mutable counterpart
    /// handing out a handle per entry: use `get_mut` or `index_mut` by key.
    pub fn iter(&self) -> (r: Vec<(&String, &JsonValue)>)
        ensures
            r@.len() == object_entries(*self).len(),
            forall|i: int| 0 <= i < r@.len() ==> (#[trigger] r@[i]).0@ == object_entries(*self)[i].0
                && r@[i].1@ == object_entries(*self)[i].1,
    {
        let n = self.len();
        let mut out: Vec<(&String, &JsonValue)> = Vec::new();
        let mut i: usize = 0;
        while i < n
            invariant
                n == object_entries(*self).len(),
                i <= n,
                out@.len() == i,
                forall|k: int| 0 <= k < i ==> (#[trigger] out@[k]).0@ == object_entries(*self)[k].0
                    && out@[k].1@ == object_entries(*self)[k].1,
            decreases n - i,
        {
            let kv = self.get_index(i).unwrap();
            out.push(kv);
            i = i + 1;
        }
        out
    }

    /// The value under `key`, or `null` when the key is missing.
    pub fn index(&self, key: &str) -> (r: &JsonValue)
        ensures
            match key_index(object_entries(*self), key@) {
                Some(i) => r@ == object_entries(*self)[i].1,
                None => r@ == JsonModel::Null,
            },
    {
        match self.get(key) {
            Some(value) => value,
            None => &JsonValue::Null,
        }
    }

    /// Every entry, in iteration order.
    pub fn into_iter(self) -> (r: Vec<(String, JsonValue)>)
        ensures
            r@.len() == object_entries(self).len(),
            forall|i: int| 0 <= i < r@.len() ==> (#[trigger] r@[i]).0@ == object_entries(self)[i].0
                && r@[i].1@ == object_entries(self)[i].1,
    {
        map_into_entries(self)
    }

    /// Takes every entry out, in iteration order, leaving the object empty.
    pub fn drain(&mut self) -> (r: Vec<(String, JsonValue)>)
        ensures
            object_entries(*final(self)) == Seq::<(Seq<char>, JsonModel)>::empty(),
            r@.len() == object_entries(*old(self)).len(),
            forall|i: int| 0 <= i < r@.len() ==> (#[trigger] r@[i]).0@ == object_entries(*old(self))[i].0
                && r@[i].1@ == object_entries(*old(self))[i].1,
    {
        map_drain(self)
    }

    /// The compact JSON text of the object.
    pub fn dump(&self) -> (r: String)
        ensures
            encode_utf8(r@) == json_text(JsonModel::Obj(object_entries(*self)), None, 0),
    {
        let mut generator = DumpGenerator::new();
        let _ = write_object(&mut generator, self);
        proof {
            lemma_text_valid(JsonModel::Obj(object_entries(*self)), generator.step(), 0);
        }
        generator.consume()
    }

    /// The JSON text of the object indented by `spaces` spaces per level.
    pub fn pretty(&self, spaces: u16) -> (r: String)
        ensures
            encode_utf8(r@) == json_text(JsonModel::Obj(object_entries(*self)), Some(spaces as nat), 0),
    {
        let mut generator = PrettyGenerator::new(spaces);
        let _ = write_object(&mut generator, self);
        proof {
            lemma_text_valid(JsonModel::Obj(object_entries(*self)), generator.step(), 0);
        }
        generator.consume()
    }
}

/// Whether two objects hold the same keys mapped to equal values, in any order.
pub fn objects_equal(a: &Object, b: &Object) -> (r: bool)
    ensures
        r == model_eq(JsonModel::Obj(object_entries(*a)), JsonModel::Obj(object_entries(*b))),
    decreases JsonModel::Obj(object_entries(*a)), 0nat,
{
    let ghost x = object_entries(*a);
    let ghost y = object_entries(*b);
    let ghost v = JsonModel::Obj(x);
    let n = a.len();
    if n != b.len() {
        return false;
    }
    let mut i: usize = 0;
    while i < n
        invariant
            x == object_entries(*a),
            y == object_entries(*b),
            v == JsonModel::Obj(x),
            n == x.len(),
            n == y.len(),
            i <= n,
            forall|k: int| 0 <= k < i ==> match key_index(y, #[trigger] x[k].0) {
                Some(j) => model_eq(x[k].1, y[j].1),
                None => false,
            },
        decreases n - i,
    {
        let (key, value) = a.get_index(i).unwrap();
        let key_text = key.as_str();
        match b.get(key_text) {
            Some(other) => {
                proof {
                    assert(v is Obj);
                    assert(v->Obj_0 == x);
                    assert(decreases_to!(v => v->Obj_0));
                    assert(decreases_to!(x => x[i as int]));
                    assert(decreases_to!(x[i as int] => x[i as int].1));
                }
                if !values_equal(value, other) {
                    return false;
                }
            },
            None => {
                return false;
            },
        }
        i = i + 1;
    }
    true
}

impl PartialEq for Object {
    fn eq(&self, other: &Object) -> (r: bool) {
        objects_equal(self, other)
    }
}

impl vstd::std_specs::cmp::PartialEqSpecImpl for Object {
    open spec fn obeys_eq_spec() -> bool {
        true
    }

    open spec fn eq_spec(&self, other: &Object) -> bool {
        model_eq(JsonModel::Obj(object_entries(*self)), JsonModel::Obj(object_entries(*other)))
    }
}

} // verus!
