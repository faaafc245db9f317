//! The generator: one walk over a value tree, written against a small set of
//! output primitives, and four backends that supply them.
use vstd::prelude::*;
use vstd::string::StringSliceAdditionalSpecFns;
use vstd::utf8::{encode_utf8, valid_utf8};

use crate::prefix::extends;
use crate::escape::{all_plain, escape_class, escape_code, escaped, hex, hex_digit, lemma_escaped_concat, lemma_escaped_plain, quoted};
use crate::number::{number_json, write_number_text, Number};
use crate::object::{object_entries, Object};
use crate::value::{JsonModel, JsonValue};

verus! {

broadcast use crate::prefix::lemma_extends_append, crate::prefix::lemma_extends_push, crate::prefix::lemma_extends_trans;

/// What follows a line break in indented output: `\n` and `depth × step`
/// spaces; nothing in compact output.
pub open spec fn newline(step: Option<nat>, depth: nat) -> Seq<u8> {
    match step {
        None => Seq::empty(),
        Some(n) => seq![10u8] + Seq::new(depth * n, |i: int| 32u8),
    }
}

/// The text between a key and its value.
pub open spec fn separator(step: Option<nat>) -> Seq<u8> {
    match step {
        None => seq![58u8],
        Some(_) => seq![58u8, 32u8],
    }
}

/// The pieces laid end to end.
pub open spec fn concat(parts: Seq<Seq<u8>>) -> Seq<u8>
    decreases parts.len(),
{
    if parts.len() == 0 {
        Seq::empty()
    } else {
        concat(parts.drop_last()) + parts.last()
    }
}

/// The comma before every element but the first.
pub open spec fn lead(i: int) -> Seq<u8> {
    if i == 0 {
        Seq::empty()
    } else {
        seq![44u8]
    }
}

/// The text of a value written at indent depth `d`; `step` is `None` for
/// compact output, or the number of spaces per level.
pub open spec fn json_text(v: JsonModel, step: Option<nat>, d: nat) -> Seq<u8>
    decreases v, 1nat,
{
    match v {
        JsonModel::Null => seq![110u8, 117u8, 108u8, 108u8],
        JsonModel::Bool(b) => if b {
            seq![116u8, 114u8, 117u8, 101u8]
        } else {
            seq![102u8, 97u8, 108u8, 115u8, 101u8]
        },
        JsonModel::Num(n) => number_json(n),
        JsonModel::Str(s) => quoted(encode_utf8(s)),
        JsonModel::Arr(a) => if a.len() == 0 {
            seq![91u8, 93u8]
        } else {
            seq![91u8] + concat(parts(v, step, d + 1)) + newline(step, d) + seq![93u8]
        },
        JsonModel::Obj(e) => if e.len() == 0 {
            seq![123u8, 125u8]
        } else {
            seq![123u8] + concat(parts(v, step, d + 1)) + newline(step, d) + seq![125u8]
        },
    }
}

/// The text of each element of a container, at depth `d`, with its leading
/// comma and line break.
pub open spec fn parts(v: JsonModel, step: Option<nat>, d: nat) -> Seq<Seq<u8>>
    decreases v, 0nat,
{
    match v {
        JsonModel::Arr(a) => Seq::new(
            a.len(),
            |i: int|
                if 0 <= i < a.len() {
                    lead(i) + newline(step, d) + json_text(a[i], step, d)
                } else {
                    Seq::empty()
                },
        ),
        JsonModel::Obj(e) => Seq::new(
            e.len(),
            |i: int|
                if 0 <= i < e.len() {
                    lead(i) + newline(step, d) + quoted(encode_utf8(e[i].0)) + separator(step)
                        + json_text(e[i].1, step, d)
                } else {
                    Seq::empty()
                },
        ),
        _ => Seq::empty(),
    }
}

/// A failed write to an outside destination.
#[derive(Debug, Clone, Copy, PartialEq, Eq, Structural)]
pub struct SinkError {
    pub code: u32,
}

/// An output destination that takes bytes and may fail.
pub trait Sink {
    /// Everything the destination has received.
    spec fn sent(&self) -> Seq<u8>;

    /// The destination never refuses bytes.
    spec fn reliable(&self) -> bool;

    fn write_all(&mut self, bytes: &[u8]) -> (r: Result<(), SinkError>)
        ensures
            r is Ok ==> final(self).sent() == old(self).sent() + bytes@,
            r is Err ==> extends(old(self).sent(), final(self).sent()),
            final(self).reliable() == old(self).reliable(),
            old(self).reliable() ==> r is Ok,
    ;
}

/// Appends `src` to `dst`.
pub fn extend_from_slice(dst: &mut Vec<u8>, src: &[u8])
    ensures
        final(dst)@ == old(dst)@ + src@,
{
    let mut i: usize = 0;
    while i < src.len()
        invariant
            i <= src@.len(),
            dst@ == old(dst)@ + src@.subrange(0, i as int),
        decreases src@.len() - i,
    {
        dst.push(src[i]);
        proof {
            assert(src@.subrange(0, i + 1) =~= src@.subrange(0, i as int).push(src@[i as int]));
        }
        i = i + 1;
    }
    proof {
        assert(src@.subrange(0, src@.len() as int) =~= src@);
    }
}

impl Sink for Vec<u8> {
    open spec fn sent(&self) -> Seq<u8> {
        self@
    }

    open spec fn reliable(&self) -> bool {
        true
    }

    fn write_all(&mut self, bytes: &[u8]) -> (r: Result<(), SinkError>)
        ensures
            r is Ok,
    {
        extend_from_slice(self, bytes);
        Ok(())
    }
}

/// The output primitives the shared walk is written against.
pub trait Generator: Sized {
    /// All bytes written so far.
    spec fn written(&self) -> Seq<u8>;

    /// `None` for compact output, else the number of spaces per indent level.
    spec fn step(&self) -> Option<nat>;

    /// The current indent depth.
    spec fn depth(&self) -> nat;

    /// Writes cannot fail.
    spec fn infallible(&self) -> bool;

    /// The backend's internal consistency.
    spec fn wf(&self) -> bool;

    fn write(&mut self, slice: &[u8]) -> (r: Result<(), SinkError>)
        requires
            old(self).wf(),
        ensures
            final(self).wf(),
            final(self).step() == old(self).step(),
            final(self).depth() == old(self).depth(),
            final(self).infallible() == old(self).infallible(),
            r is Ok ==> final(self).written() == old(self).written() + slice@,
            old(self).infallible() ==> r is Ok,
            r is Err ==> extends(old(self).written(), final(self).written()),
    ;

    fn write_char(&mut self, ch: u8) -> (r: Result<(), SinkError>)
        requires
            old(self).wf(),
        ensures
            final(self).wf(),
            final(self).step() == old(self).step(),
            final(self).depth() == old(self).depth(),
            final(self).infallible() == old(self).infallible(),
            r is Ok ==> final(self).written() == old(self).written().push(ch),
            old(self).infallible() ==> r is Ok,
            r is Err ==> extends(old(self).written(), final(self).written()),
    ;

    /// Writes `min` in compact output, `slice` in indented output.
    fn write_min(&mut self, slice: &[u8], min: u8) -> (r: Result<(), SinkError>)
        requires
            old(self).wf(),
        ensures
            final(self).wf(),
            final(self).step() == old(self).step(),
            final(self).depth() == old(self).depth(),
            final(self).infallible() == old(self).infallible(),
            r is Ok ==> final(self).written() == old(self).written() + if old(self).step() is None {
                seq![min]
            } else {
                slice@
            },
            old(self).infallible() ==> r is Ok,
            r is Err ==> extends(old(self).written(), final(self).written()),
    ;

    fn new_line(&mut self) -> (r: Result<(), SinkError>)
        requires
            old(self).wf(),
        ensures
            final(self).wf(),
            final(self).step() == old(self).step(),
            final(self).depth() == old(self).depth(),
            final(self).infallible() == old(self).infallible(),
            r is Ok ==> final(self).written() == old(self).written() + newline(
                old(self).step(),
                old(self).depth(),
            ),
            old(self).infallible() ==> r is Ok,
            r is Err ==> extends(old(self).written(), final(self).written()),
    ;

    fn indent(&mut self)
        requires
            old(self).wf(),
        ensures
            final(self).wf(),
            final(self).written() == old(self).written(),
            final(self).step() == old(self).step(),
            final(self).infallible() == old(self).infallible(),
            final(self).depth() == old(self).depth() + 1,
    ;

    fn dedent(&mut self)
        requires
            old(self).wf(),
            old(self).depth() > 0,
        ensures
            final(self).wf(),
            final(self).written() == old(self).written(),
            final(self).step() == old(self).step(),
            final(self).infallible() == old(self).infallible(),
            final(self).depth() == old(self).depth() - 1,
    ;
}

/// `b` is still consistent and has the format and reliability of `a`.
pub open spec fn kept<G: Generator>(a: G, b: G) -> bool {
    &&& b.wf()
    &&& b.step() == a.step()
    &&& b.infallible() == a.infallible()
}

/// `b` is still consistent and has the layout and reliability of `a`.
pub open spec fn same_layout<G: Generator>(a: G, b: G) -> bool {
    &&& b.wf()
    &&& b.step() == a.step()
    &&& b.depth() == a.depth()
    &&& b.infallible() == a.infallible()
}

/// Writes the rest of a string literal whose opening quote and first
/// `start` bytes need nothing: escapes every byte from `start` on, flushing
/// runs of plain bytes in bulk, and closes the quote.
pub fn write_string_complex<G: Generator>(g: &mut G, string: &str, start: usize) -> (r: Result<(), SinkError>)
    requires
        old(g).wf(),
        start <= string.spec_bytes().len(),
        all_plain(string.spec_bytes().subrange(0, start as int)),
    ensures
        same_layout(*old(g), *final(g)),
        r is Ok ==> final(g).written() == old(g).written() + escaped(string.spec_bytes()) + seq![0x22u8],
        old(g).infallible() ==> r is Ok,
        r is Err ==> extends(old(g).written(), final(g).written()),
{
    let bytes = string.as_bytes();
    let ghost b = bytes@;
    let ghost w0 = g.written();
    let mut run: usize = 0;
    let mut index: usize = start;
    proof {
        assert(b.subrange(0, 0) =~= Seq::<u8>::empty());
        assert(escaped(Seq::<u8>::empty()) =~= Seq::<u8>::empty());
        assert(b.subrange(0, index as int) == b.subrange(0, start as int));
    }
    while index < bytes.len()
        invariant
            same_layout(*old(g), *g),
            w0 == old(g).written(),
            b == bytes@,
            run <= index <= b.len(),
            g.written() == w0 + escaped(b.subrange(0, run as int)),
            all_plain(b.subrange(run as int, index as int)),
        decreases b.len() - index,
    {
        let ch = bytes[index];
        let escape = escape_code(ch);
        if escape > 0 {
            let res = g.write(&bytes[run..index]);
            if res.is_err() {
                return res;
            }
            proof {
                lemma_escaped_plain(b.subrange(run as int, index as int));
                lemma_escaped_concat(b.subrange(0, run as int), b.subrange(run as int, index as int));
                assert(b.subrange(0, run as int) + b.subrange(run as int, index as int) =~= b.subrange(0, index as int));
            }
            let pair: [u8; 2] = [0x5c, escape];
            let res = g.write(&pair);
            if res.is_err() {
                return res;
            }
            if escape == 0x75 {
                let digits: [u8; 4] = [0x30, 0x30, hex(ch / 16), hex(ch % 16)];
                let res = g.write(&digits);
                if res.is_err() {
                    return res;
                }
            }
            proof {
                assert(b.subrange(0, index + 1).drop_last() =~= b.subrange(0, index as int));
                assert(b.subrange(0, index + 1).last() == ch);
                assert(g.written() =~= w0 + escaped(b.subrange(0, index + 1)));
                assert(b.subrange(index + 1, index + 1) =~= Seq::<u8>::empty());
            }
            run = index + 1;
        } else {
            proof {
                assert(b.subrange(run as int, index + 1) =~= b.subrange(run as int, index as int).push(ch));
            }
        }
        index = index + 1;
    }
    let res = g.write(&bytes[run..bytes.len()]);
    if res.is_err() {
        return res;
    }
    proof {
        lemma_escaped_plain(b.subrange(run as int, b.len() as int));
        lemma_escaped_concat(b.subrange(0, run as int), b.subrange(run as int, b.len() as int));
        assert(b.subrange(0, run as int) + b.subrange(run as int, b.len() as int) =~= b);
    }
    g.write_char(0x22)
}

/// Writes a string literal: quotes around the escaped bytes of `string`.
pub fn write_string<G: Generator>(g: &mut G, string: &str) -> (r: Result<(), SinkError>)
    requires
        old(g).wf(),
    ensures
        same_layout(*old(g), *final(g)),
        r is Ok ==> final(g).written() == old(g).written() + quoted(string.spec_bytes()),
        old(g).infallible() ==> r is Ok,
        r is Err ==> extends(old(g).written(), final(g).written()),
{
    let ghost w0 = g.written();
    let res = g.write_char(0x22);
    if res.is_err() {
        return res;
    }
    let bytes = string.as_bytes();
    let mut index: usize = 0;
    while index < bytes.len()
        invariant
            same_layout(*old(g), *g),
            g.written() == w0 + seq![0x22u8],
            w0 == old(g).written(),
            index <= bytes@.len(),
            bytes@ == string.spec_bytes(),
            all_plain(bytes@.subrange(0, index as int)),
        decreases bytes@.len() - index,
    {
        if escape_code(bytes[index]) > 0 {
            let ghost mid = *g;
            let r = write_string_complex(g, string, index);
            proof {
                assert(w0 + seq![0x22u8] + escaped(bytes@) + seq![0x22u8] =~= w0 + quoted(bytes@));
                if r is Ok {
                    assert(mid.written() == w0 + seq![0x22u8]);
                    assert(g.written() == mid.written() + escaped(bytes@) + seq![0x22u8]);
                    assert(g.written() =~= w0 + quoted(bytes@));
                }
            }
            return r;
        }
        proof {
            assert(bytes@.subrange(0, index + 1) =~= bytes@.subrange(0, index as int).push(bytes@[index as int]));
        }
        index = index + 1;
    }
    let res = g.write(bytes);
    if res.is_err() {
        return res;
    }
    proof {
        assert(bytes@.subrange(0, bytes@.len() as int) =~= bytes@);
        lemma_escaped_plain(bytes@);
    }
    let r = g.write_char(0x22);
    proof {
        assert(w0 + seq![0x22u8] + bytes@ + seq![0x22u8] =~= w0 + quoted(bytes@));
    }
    r
}

/// Writes a number: `null` for the not-a-number sentinel, else its decimal text.
pub fn write_number<G: Generator>(g: &mut G, num: &Number) -> (r: Result<(), SinkError>)
    requires
        old(g).wf(),
    ensures
        same_layout(*old(g), *final(g)),
        r is Ok ==> final(g).written() == old(g).written() + number_json(*num),
        old(g).infallible() ==> r is Ok,
        r is Err ==> extends(old(g).written(), final(g).written()),
{
    let mut text: Vec<u8> = Vec::new();
    write_number_text(&mut text, num);
    proof {
        assert(text@ =~= number_json(*num));
    }
    g.write(text.as_slice())
}

proof fn lemma_concat_push(p: Seq<Seq<u8>>, i: int)
    requires
        0 <= i < p.len(),
    ensures
        concat(p.subrange(0, i + 1)) == concat(p.subrange(0, i)) + p[i],
{
    assert(p.subrange(0, i + 1).drop_last() =~= p.subrange(0, i));
}

/// Writes an object: `{}` when it is empty, else each entry as key,
/// separator and value, with commas and line breaks between them.
#[verifier::rlimit(60)]
pub fn write_object<G: Generator>(g: &mut G, object: &Object) -> (r: Result<(), SinkError>)
    requires
        old(g).wf(),
    ensures
        kept(*old(g), *final(g)),
        r is Ok ==> final(g).depth() == old(g).depth(),
        r is Ok ==> final(g).written() == old(g).written() + json_text(
            JsonModel::Obj(object_entries(*object)),
            old(g).step(),
            old(g).depth(),
        ),
        old(g).infallible() ==> r is Ok,
        r is Err ==> extends(old(g).written(), final(g).written()),
    decreases JsonModel::Obj(object_entries(*object)), 0nat,
{
    let ghost e = object_entries(*object);
    let ghost v = JsonModel::Obj(e);
    let ghost d0 = g.depth();
    let ghost w0 = g.written();
    let ghost step = g.step();
    let res = g.write_char(0x7b);
    if res.is_err() {
        return res;
    }
    let n = object.len();
    if n == 0 {
        let r = g.write_char(0x7d);
        proof {
            assert(w0 + seq![123u8] + seq![125u8] =~= w0 + json_text(v, step, d0));
        }
        return r;
    }
    g.indent();
    let colon: [u8; 2] = [0x3a, 0x20];
    let mut i: usize = 0;
    proof {
        assert(parts(v, step, d0 + 1).subrange(0, 0) =~= Seq::<Seq<u8>>::empty());
        assert(w0 + seq![123u8] + concat(Seq::<Seq<u8>>::empty()) =~= w0 + seq![123u8]);
    }
    while i < n
        invariant
            g.wf(),
            g.step() == step,
            g.depth() == d0 + 1,
            g.infallible() == old(g).infallible(),
            w0 == old(g).written(),
            d0 == old(g).depth(),
            step == old(g).step(),
            e == object_entries(*object),
            v == JsonModel::Obj(e),
            n == e.len(),
            i <= n,
            colon@ == seq![0x3au8, 0x20u8],
            g.written() == w0 + seq![123u8] + concat(parts(v, step, d0 + 1).subrange(0, i as int)),
        decreases n - i,
    {
        let ghost before = g.written();
        let kv = object.get_index(i);
        let (key, value) = kv.unwrap();
        if i > 0 {
            let res = g.write_char(0x2c);
            if res.is_err() {
                return res;
            }
        }
        let res = g.new_line();
        if res.is_err() {
            return res;
        }
        let key_text = key.as_str();
        let res = write_string(g, key_text);
        if res.is_err() {
            return res;
        }
        let res = g.write_min(&colon, 0x3a);
        if res.is_err() {
            return res;
        }
        proof {
            assert(decreases_to!(v => e));
            assert(decreases_to!(e => e[i as int]));
            assert(decreases_to!(e[i as int] => e[i as int].1));
        }
        let res = write_json(g, value);
        if res.is_err() {
            return res;
        }
        proof {
            let p = parts(v, step, d0 + 1);
            lemma_concat_push(p, i as int);
            assert(p[i as int] == lead(i as int) + newline(step, d0 + 1) + quoted(encode_utf8(e[i as int].0))
                + separator(step) + json_text(e[i as int].1, step, d0 + 1));
            assert(key_text.spec_bytes() == encode_utf8(e[i as int].0));
            assert(colon@ == separator(step) || step is None);
            if i > 0 {
                assert(g.written() =~= before + p[i as int]);
            } else {
                assert(g.written() =~= before + p[i as int]);
            }
        }
        i = i + 1;
    }
    g.dedent();
    let res = g.new_line();
    if res.is_err() {
        return res;
    }
    let r = g.write_char(0x7d);
    proof {
        assert(parts(v, step, d0 + 1).subrange(0, n as int) =~= parts(v, step, d0 + 1));
        assert(r is Ok ==> g.written() =~= w0 + json_text(v, step, d0));
    }
    r
}

/// Writes any value: keywords, numbers and strings directly, arrays and
/// objects element by element.
#[verifier::rlimit(60)]
pub fn write_json<G: Generator>(g: &mut G, json: &JsonValue) -> (r: Result<(), SinkError>)
    requires
        old(g).wf(),
    ensures
        kept(*old(g), *final(g)),
        r is Ok ==> final(g).depth() == old(g).depth(),
        r is Ok ==> final(g).written() == old(g).written() + json_text(json@, old(g).step(), old(g).depth()),
        old(g).infallible() ==> r is Ok,
        r is Err ==> extends(old(g).written(), final(g).written()),
    decreases json@, 1nat,
{
    let ghost d0 = g.depth();
    let ghost w0 = g.written();
    let ghost step = g.step();
    match json {
        JsonValue::Null => {
            let word: [u8; 4] = [0x6e, 0x75, 0x6c, 0x6c];
            let r = g.write(&word);
            proof {
                assert(word@ =~= json_text(json@, step, d0));
            }
            r
        },
        JsonValue::String(string) => write_string(g, string.as_str()),
        JsonValue::Number(number) => write_number(g, number),
        JsonValue::Boolean(b) => {
            if *b {
                let word: [u8; 4] = [0x74, 0x72, 0x75, 0x65];
                let r = g.write(&word);
                proof {
                    assert(word@ =~= json_text(json@, step, d0));
                }
                r
            } else {
                let word: [u8; 5] = [0x66, 0x61, 0x6c, 0x73, 0x65];
                let r = g.write(&word);
                proof {
                    assert(word@ =~= json_text(json@, step, d0));
                }
                r
            }
        },
        JsonValue::Object(object) => write_object(g, object),
        JsonValue::Array(array) => {
            let ghost v = json@;
            let ghost a = v->Arr_0;
            let res = g.write_char(0x5b);
            if res.is_err() {
                return res;
            }
            let n = array.len();
            if n == 0 {
                let r = g.write_char(0x5d);
                proof {
                    assert(w0 + seq![91u8] + seq![93u8] =~= w0 + json_text(v, step, d0));
                }
                return r;
            }
            g.indent();
            let mut i: usize = 0;
            proof {
                assert(parts(v, step, d0 + 1).subrange(0, 0) =~= Seq::<Seq<u8>>::empty());
                assert(w0 + seq![91u8] + concat(Seq::<Seq<u8>>::empty()) =~= w0 + seq![91u8]);
            }
            while i < n
                invariant
                    g.wf(),
                    g.step() == step,
                    g.depth() == d0 + 1,
                    g.infallible() == old(g).infallible(),
                    w0 == old(g).written(),
                    d0 == old(g).depth(),
                    step == old(g).step(),
                    v == json@,
                    v is Arr,
                    a == v->Arr_0,
                    n == array@.len(),
                    n == a.len(),
                    i <= n,
                    forall|k: int| 0 <= k < n ==> #[trigger] a[k] == array@[k]@,
                    g.written() == w0 + seq![91u8] + concat(parts(v, step, d0 + 1).subrange(0, i as int)),
                decreases n - i,
            {
                let ghost before = g.written();
                if i > 0 {
                    let res = g.write_char(0x2c);
                    if res.is_err() {
                        return res;
                    }
                }
                let res = g.new_line();
                if res.is_err() {
                    return res;
                }
                let item = &array[i];
                proof {
                    assert(a[i as int] == item@);
                    assert(decreases_to!(v => a));
                    assert(decreases_to!(a => a[i as int]));
                }
                let res = write_json(g, item);
                if res.is_err() {
                    return res;
                }
                proof {
                    let p = parts(v, step, d0 + 1);
                    lemma_concat_push(p, i as int);
                    assert(p[i as int] == lead(i as int) + newline(step, d0 + 1) + json_text(a[i as int], step, d0 + 1));
                    assert(g.written() =~= before + p[i as int]);
                }
                i = i + 1;
            }
            g.dedent();
            let res = g.new_line();
            if res.is_err() {
                return res;
            }
            let r = g.write_char(0x5d);
            proof {
                assert(parts(v, step, d0 + 1).subrange(0, n as int) =~= parts(v, step, d0 + 1));
                assert(r is Ok ==> g.written() =~= w0 + json_text(v, step, d0));
            }
            r
        },
    }
}

/// A run of `n` spaces.
pub open spec fn spaces(n: nat) -> Seq<u8> {
    Seq::new(n, |i: int| 32u8)
}

/// Relies on `String::from_utf8_lossy`: bytes that are valid UTF-8 come back
/// as the string they encode.
#[verifier::external_body]
fn text_of(bytes: &[u8]) -> (r: String)
    ensures
        valid_utf8(bytes@) ==> encode_utf8(r@) == bytes@,
{
    String::from_utf8_lossy(bytes).into_owned()
}

/// Compact output into a buffer of its own.
pub struct DumpGenerator {
    code: Vec<u8>,
    depth: Ghost<nat>,
}

impl DumpGenerator {
    pub fn new() -> (r: Self)
        ensures
            r.wf(),
            r.written() == Seq::<u8>::empty(),
            r.step() is None,
            r.depth() == 0,
            r.infallible(),
    {
        DumpGenerator { code: Vec::with_capacity(1024), depth: Ghost(0) }
    }

    /// The text written; exact whenever the bytes are valid UTF-8.
    pub fn consume(self) -> (r: String)
        ensures
            valid_utf8(self.written()) ==> encode_utf8(r@) == self.written(),
    {
        text_of(self.code.as_slice())
    }
}

impl Generator for DumpGenerator {
    closed spec fn written(&self) -> Seq<u8> {
        self.code@
    }

    closed spec fn step(&self) -> Option<nat> {
        None
    }

    closed spec fn depth(&self) -> nat {
        self.depth@
    }

    open spec fn infallible(&self) -> bool {
        true
    }

    closed spec fn wf(&self) -> bool {
        true
    }

    fn write(&mut self, slice: &[u8]) -> (r: Result<(), SinkError>) {
        extend_from_slice(&mut self.code, slice);
        Ok(())
    }

    fn write_char(&mut self, ch: u8) -> (r: Result<(), SinkError>) {
        self.code.push(ch);
        Ok(())
    }

    fn write_min(&mut self, slice: &[u8], min: u8) -> (r: Result<(), SinkError>) {
        self.code.push(min);
        Ok(())
    }

    fn new_line(&mut self) -> (r: Result<(), SinkError>) {
        proof {
            assert(newline(None, self.depth@) =~= Seq::<u8>::empty());
            assert(self.code@ + Seq::<u8>::empty() =~= self.code@);
        }
        Ok(())
    }

    fn indent(&mut self) {
        self.depth = Ghost(self.depth@ + 1);
    }

    fn dedent(&mut self) {
        self.depth = Ghost((self.depth@ - 1) as nat);
    }
}

/// Appends `spaces` spaces to the padding of one more level.
fn grow_pad(pad: &mut Vec<u8>, count: u16)
    ensures
        final(pad)@ == old(pad)@ + spaces(count as nat),
{
    let mut k: u16 = 0;
    while k < count
        invariant
            k <= count,
            pad@ == old(pad)@ + spaces(k as nat),
        decreases count - k,
    {
        pad.push(32);
        proof {
            assert(old(pad)@ + spaces((k + 1) as nat) =~= (old(pad)@ + spaces(k as nat)).push(32u8));
        }
        k = k + 1;
    }
}

proof fn lemma_pad_levels(d: nat, s: nat)
    ensures
        (d + 1) * s == d * s + s,
        d >= 1 ==> d * s >= s,
{
    assert((d + 1) * s == d * s + s) by (nonlinear_arith);
    assert(d >= 1 ==> d * s >= s) by (nonlinear_arith);
}

/// Indented output into a buffer of its own.
pub struct PrettyGenerator {
    code: Vec<u8>,
    pad: Vec<u8>,
    spaces_per_indent: u16,
    depth: Ghost<nat>,
}

impl PrettyGenerator {
    /// A generator that indents each level by `spaces` spaces.
    pub fn new(spaces: u16) -> (r: Self)
        ensures
            r.wf(),
            r.written() == Seq::<u8>::empty(),
            r.step() == Some(spaces as nat),
            r.depth() == 0,
            r.infallible(),
    {
        let r = PrettyGenerator { code: Vec::with_capacity(1024), pad: Vec::new(), spaces_per_indent: spaces, depth: Ghost(0) };
        proof {
            assert(r.pad@ =~= crate::codegen::spaces(0 * spaces as nat));
        }
        r
    }

    /// The text written; exact whenever the bytes are valid UTF-8.
    pub fn consume(self) -> (r: String)
        ensures
            valid_utf8(self.written()) ==> encode_utf8(r@) == self.written(),
    {
        text_of(self.code.as_slice())
    }
}

impl Generator for PrettyGenerator {
    closed spec fn written(&self) -> Seq<u8> {
        self.code@
    }

    closed spec fn step(&self) -> Option<nat> {
        Some(self.spaces_per_indent as nat)
    }

    closed spec fn depth(&self) -> nat {
        self.depth@
    }

    open spec fn infallible(&self) -> bool {
        true
    }

    closed spec fn wf(&self) -> bool {
        self.pad@ == spaces(self.depth@ * self.spaces_per_indent as nat)
    }

    fn write(&mut self, slice: &[u8]) -> (r: Result<(), SinkError>) {
        extend_from_slice(&mut self.code, slice);
        Ok(())
    }

    fn write_char(&mut self, ch: u8) -> (r: Result<(), SinkError>) {
        self.code.push(ch);
        Ok(())
    }

    fn write_min(&mut self, slice: &[u8], min: u8) -> (r: Result<(), SinkError>) {
        extend_from_slice(&mut self.code, slice);
        Ok(())
    }

    fn new_line(&mut self) -> (r: Result<(), SinkError>) {
        self.code.push(10);
        extend_from_slice(&mut self.code, self.pad.as_slice());
        proof {
            assert(self.code@ =~= old(self).code@ + newline(Some(self.spaces_per_indent as nat), self.depth@));
        }
        Ok(())
    }

    fn indent(&mut self) {
        grow_pad(&mut self.pad, self.spaces_per_indent);
        proof {
            lemma_pad_levels(self.depth@, self.spaces_per_indent as nat);
            assert(self.pad@ =~= spaces((self.depth@ + 1) * self.spaces_per_indent as nat));
        }
        self.depth = Ghost(self.depth@ + 1);
    }

    fn dedent(&mut self) {
        proof {
            lemma_pad_levels((self.depth@ - 1) as nat, self.spaces_per_indent as nat);
        }
        let keep = self.pad.len() - self.spaces_per_indent as usize;
        self.pad.truncate(keep);
        self.depth = Ghost((self.depth@ - 1) as nat);
        proof {
            assert(self.pad@ =~= spaces(self.depth@ * self.spaces_per_indent as nat));
        }
    }
}

/// Compact output into a destination borrowed from the caller.
pub struct WriterGenerator<'a, W: Sink> {
    writer: &'a mut W,
    depth: Ghost<nat>,
}

impl<'a, W: Sink> WriterGenerator<'a, W> {
    pub fn new(writer: &'a mut W) -> (r: Self)
        ensures
            r.wf(),
            r.written() == old(writer).sent(),
            r.step() is None,
            r.depth() == 0,
            r.infallible() == old(writer).reliable(),
    {
        WriterGenerator { writer, depth: Ghost(0) }
    }
}

impl<'a, W: Sink> Generator for WriterGenerator<'a, W> {
    closed spec fn written(&self) -> Seq<u8> {
        self.writer.sent()
    }

    closed spec fn step(&self) -> Option<nat> {
        None
    }

    closed spec fn depth(&self) -> nat {
        self.depth@
    }

    closed spec fn infallible(&self) -> bool {
        self.writer.reliable()
    }

    closed spec fn wf(&self) -> bool {
        true
    }

    fn write(&mut self, slice: &[u8]) -> (r: Result<(), SinkError>) {
        self.writer.write_all(slice)
    }

    fn write_char(&mut self, ch: u8) -> (r: Result<(), SinkError>) {
        let one: [u8; 1] = [ch];
        let r = self.writer.write_all(&one);
        proof {
            assert(one@ =~= seq![ch]);
        }
        r
    }

    fn write_min(&mut self, slice: &[u8], min: u8) -> (r: Result<(), SinkError>) {
        let one: [u8; 1] = [min];
        let r = self.writer.write_all(&one);
        proof {
            assert(one@ =~= seq![min]);
        }
        r
    }

    fn new_line(&mut self) -> (r: Result<(), SinkError>) {
        proof {
            assert(newline(None, self.depth@) =~= Seq::<u8>::empty());
            assert(self.writer.sent() + Seq::<u8>::empty() =~= self.writer.sent());
        }
        Ok(())
    }

    fn indent(&mut self) {
        self.depth = Ghost(self.depth@ + 1);
    }

    fn dedent(&mut self) {
        self.depth = Ghost((self.depth@ - 1) as nat);
    }
}

/// Indented output into a destination borrowed from the caller.
pub struct PrettyWriterGenerator<'a, W: Sink> {
    writer: &'a mut W,
    pad: Vec<u8>,
    spaces_per_indent: u16,
    depth: Ghost<nat>,
}

impl<'a, W: Sink> PrettyWriterGenerator<'a, W> {
    /// A generator that indents each level by `spaces` spaces.
    pub fn new(writer: &'a mut W, spaces: u16) -> (r: Self)
        ensures
            r.wf(),
            r.written() == old(writer).sent(),
            r.step() == Some(spaces as nat),
            r.depth() == 0,
            r.infallible() == old(writer).reliable(),
    {
        let r = PrettyWriterGenerator { writer, pad: Vec::new(), spaces_per_indent: spaces, depth: Ghost(0) };
        proof {
            assert(r.pad@ =~= crate::codegen::spaces(0 * spaces as nat));
        }
        r
    }
}

impl<'a, W: Sink> Generator for PrettyWriterGenerator<'a, W> {
    closed spec fn written(&self) -> Seq<u8> {
        self.writer.sent()
    }

    closed spec fn step(&self) -> Option<nat> {
        Some(self.spaces_per_indent as nat)
    }

    closed spec fn depth(&self) -> nat {
        self.depth@
    }

    closed spec fn infallible(&self) -> bool {
        self.writer.reliable()
    }

    closed spec fn wf(&self) -> bool {
        self.pad@ == spaces(self.depth@ * self.spaces_per_indent as nat)
    }

    fn write(&mut self, slice: &[u8]) -> (r: Result<(), SinkError>) {
        self.writer.write_all(slice)
    }

    fn write_char(&mut self, ch: u8) -> (r: Result<(), SinkError>) {
        let one: [u8; 1] = [ch];
        let r = self.writer.write_all(&one);
        proof {
            assert(one@ =~= seq![ch]);
        }
        r
    }

    fn write_min(&mut self, slice: &[u8], min: u8) -> (r: Result<(), SinkError>) {
        self.writer.write_all(slice)
    }

    fn new_line(&mut self) -> (r: Result<(), SinkError>) {
        let one: [u8; 1] = [10];
        let res = self.writer.write_all(&one);
        if res.is_err() {
            return res;
        }
        let r = self.writer.write_all(self.pad.as_slice());
        proof {
            assert(one@ =~= seq![10u8]);
            if r is Ok {
                assert(self.writer.sent() =~= old(self).writer.sent() + newline(
                    Some(self.spaces_per_indent as nat),
                    self.depth@,
                ));
            }
        }
        r
    }

    fn indent(&mut self) {
        grow_pad(&mut self.pad, self.spaces_per_indent);
        proof {
            lemma_pad_levels(self.depth@, self.spaces_per_indent as nat);
            assert(self.pad@ =~= spaces((self.depth@ + 1) * self.spaces_per_indent as nat));
        }
        self.depth = Ghost(self.depth@ + 1);
    }

    fn dedent(&mut self) {
        proof {
            lemma_pad_levels((self.depth@ - 1) as nat, self.spaces_per_indent as nat);
        }
        let keep = self.pad.len() - self.spaces_per_indent as usize;
        self.pad.truncate(keep);
        self.depth = Ghost((self.depth@ - 1) as nat);
        proof {
            assert(self.pad@ =~= spaces(self.depth@ * self.spaces_per_indent as nat));
        }
    }
}

} // verus!
