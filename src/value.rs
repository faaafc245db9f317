//! The JSON value tree and its mathematical model.
use vstd::prelude::*;

use crate::number::Number;
use vstd::utf8::encode_utf8;

use crate::validity::lemma_text_valid;
use crate::codegen::{json_text, write_json, DumpGenerator, Generator, PrettyGenerator};
use crate::object::{Object, object_entries, key_index, objects_equal, unique_keys};

verus! {

broadcast use vstd::std_specs::vec::group_vec_axioms;

/// A JSON value. Containers own their children.
#[derive(Debug)]
pub enum JsonValue {
    Null,
    String(String),
    Number(Number),
    Boolean(bool),
    Object(Object),
    Array(Vec<JsonValue>),
}

/// The mathematical model of a JSON value: strings as characters, arrays as
/// sequences, objects as the sequence of their entries in iteration order.
pub enum JsonModel {
    Null,
    Str(Seq<char>),
    Num(Number),
    Bool(bool),
    Obj(Seq<(Seq<char>, JsonModel)>),
    Arr(Seq<JsonModel>),
}

impl JsonValue {
    pub open spec fn view(&self) -> JsonModel
        decreases self,
    {
        match self {
            JsonValue::Null => JsonModel::Null,
            JsonValue::String(s) => JsonModel::Str(s@),
            JsonValue::Number(n) => JsonModel::Num(*n),
            JsonValue::Boolean(b) => JsonModel::Bool(*b),
            JsonValue::Object(o) => JsonModel::Obj(object_entries(*o)),
            JsonValue::Array(a) => JsonModel::Arr(
                Seq::new(a@.len(), |i: int| if 0 <= i < a@.len() { a@[i].view() } else { JsonModel::Null }),
            ),
        }
    }
}

/// Equality of JSON values: arrays compare element by element, objects
/// compare as sets of entries, whatever their order.
pub open spec fn model_eq(a: JsonModel, b: JsonModel) -> bool
    decreases a,
{
    match (a, b) {
        (JsonModel::Null, JsonModel::Null) => true,
        (JsonModel::Str(x), JsonModel::Str(y)) => x == y,
        (JsonModel::Num(x), JsonModel::Num(y)) => x == y,
        (JsonModel::Bool(x), JsonModel::Bool(y)) => x == y,
        (JsonModel::Arr(x), JsonModel::Arr(y)) => x.len() == y.len() && forall|i: int|
            0 <= i < x.len() ==> model_eq(#[trigger] x[i], y[i]),
        (JsonModel::Obj(x), JsonModel::Obj(y)) => x.len() == y.len() && forall|i: int|
            0 <= i < x.len() ==> match key_index(y, #[trigger] x[i].0) {
                Some(j) => model_eq(x[i].1, y[j].1),
                None => false,
            },
        _ => false,
    }
}

/// Every object inside the value has unique keys, as every `Object` does.
pub open spec fn wf_model(v: JsonModel) -> bool
    decreases v,
{
    match v {
        JsonModel::Arr(a) => forall|i: int| 0 <= i < a.len() ==> wf_model(#[trigger] a[i]),
        JsonModel::Obj(e) => unique_keys(e) && forall|i: int| 0 <= i < e.len() ==> wf_model(#[trigger] e[i].1),
        _ => true,
    }
}

/// Every well-formed value equals itself.
pub proof fn lemma_model_eq_reflexive(v: JsonModel)
    requires
        wf_model(v),
    ensures
        model_eq(v, v),
    decreases v,
{
    match v {
        JsonModel::Arr(a) => {
            assert(decreases_to!(v => v->Arr_0));
            assert forall|i: int| 0 <= i < a.len() implies model_eq(#[trigger] a[i], a[i]) by {
                assert(decreases_to!(a => a[i]));
                lemma_model_eq_reflexive(a[i]);
            }
        },
        JsonModel::Obj(e) => {
            assert(decreases_to!(v => v->Obj_0));
            assert forall|i: int| 0 <= i < e.len() implies match key_index(e, #[trigger] e[i].0) {
                Some(j) => model_eq(e[i].1, e[j].1),
                None => false,
            } by {
                assert(e[i].0 == e[i].0);
                let j = key_index(e, e[i].0)->0;
                assert(e[j].0 == e[i].0);
                assert(j == i);
                assert(decreases_to!(e => e[i]));
                assert(decreases_to!(e[i] => e[i].1));
                lemma_model_eq_reflexive(e[i].1);
            }
        },
        _ => {},
    }
}

/// Whether two values are equal, objects compared without regard to order.
pub fn values_equal(a: &JsonValue, b: &JsonValue) -> (r: bool)
    ensures
        r == model_eq(a@, b@),
    decreases a@, 1nat,
{
    match (a, b) {
        (JsonValue::Null, JsonValue::Null) => true,
        (JsonValue::String(x), JsonValue::String(y)) => {
            let r = x.eq(y);
            assert(r == (x@ == y@));
            r
        },
        (JsonValue::Number(x), JsonValue::Number(y)) => *x == *y,
        (JsonValue::Boolean(x), JsonValue::Boolean(y)) => *x == *y,
        (JsonValue::Object(x), JsonValue::Object(y)) => objects_equal(x, y),
        (JsonValue::Array(x), JsonValue::Array(y)) => {
            let ghost ax = a@->Arr_0;
            let ghost ay = b@->Arr_0;
            let n = x.len();
            if n != y.len() {
                return false;
            }
            let mut i: usize = 0;
            while i < n
                invariant
                    ax == a@->Arr_0,
                    ay == b@->Arr_0,
                    a@ is Arr,
                    b@ is Arr,
                    n == x@.len(),
                    n == y@.len(),
                    n == ax.len(),
                    n == ay.len(),
                    i <= n,
                    forall|k: int| 0 <= k < n ==> #[trigger] ax[k] == x@[k]@,
                    forall|k: int| 0 <= k < n ==> #[trigger] ay[k] == y@[k]@,
                    forall|k: int| 0 <= k < i ==> model_eq(#[trigger] ax[k], ay[k]),
                decreases n - i,
            {
                proof {
                    assert(decreases_to!(a@ => ax));
                    assert(decreases_to!(ax => ax[i as int]));
                }
                if !values_equal(&x[i], &y[i]) {
                    proof {
                        assert(!model_eq(ax[i as int], ay[i as int]));
                    }
                    return false;
                }
                i = i + 1;
            }
            proof {
                assert(a@ == JsonModel::Arr(ax));
                assert(b@ == JsonModel::Arr(ay));
                assert(model_eq(JsonModel::Arr(ax), JsonModel::Arr(ay)));
            }
            true
        },
        _ => false,
    }
}

impl PartialEq for JsonValue {
    fn eq(&self, other: &JsonValue) -> (r: bool) {
        values_equal(self, other)
    }
}

impl vstd::std_specs::cmp::PartialEqSpecImpl for JsonValue {
    open spec fn obeys_eq_spec() -> bool {
        true
    }

    open spec fn eq_spec(&self, other: &JsonValue) -> bool {
        model_eq(self@, other@)
    }
}

impl JsonValue {
    /// An empty object.
    pub fn new_object() -> (r: JsonValue)
        ensures
            r@ == JsonModel::Obj(Seq::empty()),
    {
        JsonValue::Object(Object::new())
    }

    /// An empty array.
    pub fn new_array() -> (r: JsonValue)
        ensures
            r@ == JsonModel::Arr(Seq::empty()),
    {
        let r = JsonValue::Array(Vec::new());
        proof {
            assert(r@->Arr_0 =~= Seq::<JsonModel>::empty());
        }
        r
    }

    /// The compact JSON text of the value.
    pub fn dump(&self) -> (r: String)
        ensures
            encode_utf8(r@) == json_text(self@, None, 0),
    {
        let mut generator = DumpGenerator::new();
        let _ = write_json(&mut generator, self);
        proof {
            lemma_text_valid(self@, generator.step(), 0);
        }
        generator.consume()
    }

    /// The JSON text of the value indented by `spaces` spaces per level.
    pub fn pretty(&self, spaces: u16) -> (r: String)
        ensures
            encode_utf8(r@) == json_text(self@, Some(spaces as nat), 0),
    {
        let mut generator = PrettyGenerator::new(spaces);
        let _ = write_json(&mut generator, self);
        proof {
            lemma_text_valid(self@, generator.step(), 0);
        }
        generator.consume()
    }
}

} // verus!
