//! The generated text is valid UTF-8: escaping touches ASCII bytes only, and
//! everything else written is ASCII or the UTF-8 encoding of characters.
use vstd::prelude::*;
use vstd::utf8::*;

use crate::codegen::{concat, json_text, lead, newline, parts, separator};
use crate::escape::{all_plain, escape_byte, escape_class, escaped, hex_digit, lemma_escaped_concat, lemma_escaped_plain, quoted};
use crate::number::{digits, number_json, significant_text, trailing_zeros, zeros};
use crate::value::JsonModel;

verus! {

/// Every byte is below 0x80.
pub open spec fn ascii_bytes(b: Seq<u8>) -> bool {
    forall|i: int| 0 <= i < b.len() ==> #[trigger] b[i] < 0x80
}

proof fn lemma_ascii_valid(b: Seq<u8>)
    requires
        ascii_bytes(b),
    ensures
        valid_utf8(b),
    decreases b.len(),
{
    if b.len() > 0 {
        let rest = b.subrange(1, b.len() as int);
        assert(pop_first_scalar(b) =~= rest);
        lemma_ascii_valid(rest);
    }
}

proof fn lemma_ascii_concat(a: Seq<u8>, b: Seq<u8>)
    requires
        ascii_bytes(a),
        ascii_bytes(b),
    ensures
        ascii_bytes(a + b),
{
    assert forall|i: int| 0 <= i < (a + b).len() implies #[trigger] (a + b)[i] < 0x80 by {
        if i < a.len() {
            assert((a + b)[i] == a[i]);
        } else {
            assert((a + b)[i] == b[i - a.len()]);
        }
    }
}

proof fn lemma_digits_ascii(n: nat)
    ensures
        ascii_bytes(digits(n)),
    decreases n,
{
    if n >= 10 {
        lemma_digits_ascii(n / 10);
        let d = digits(n / 10);
        assert forall|i: int| 0 <= i < digits(n).len() implies #[trigger] digits(n)[i] < 0x80 by {
            if i < d.len() {
                assert(digits(n)[i] == d[i]);
            }
        }
    }
}

proof fn lemma_significant_ascii(c: Seq<u8>, e: int)
    requires
        ascii_bytes(c),
    ensures
        ascii_bytes(significant_text(c, e)),
{
    let k = if e < 0 { -e } else { e };
    lemma_digits_ascii(k as nat);
    let t = significant_text(c, e);
    assert forall|i: int| 0 <= i < t.len() implies #[trigger] t[i] < 0x80 by {
        if e > 0 && e <= 2 {
            lemma_ascii_concat(c, zeros(e as nat));
        } else if e > 0 {
            lemma_ascii_concat(c, seq![101u8]);
            lemma_ascii_concat(c + seq![101u8], digits(e as nat));
        } else if e < 0 && -e < c.len() {
            let a = c.subrange(0, c.len() + e);
            let b = c.subrange(c.len() + e, c.len() as int);
            assert(ascii_bytes(a));
            assert(ascii_bytes(b));
            lemma_ascii_concat(a, seq![46u8]);
            lemma_ascii_concat(a + seq![46u8], b);
        } else if e < 0 && -e <= c.len() + digits((-e) as nat).len() {
            let z = zeros((-e - c.len()) as nat);
            lemma_ascii_concat(seq![48u8, 46u8], z);
            lemma_ascii_concat(seq![48u8, 46u8] + z, c);
        } else if e < 0 {
            lemma_ascii_concat(c, seq![101u8, 45u8]);
            lemma_ascii_concat(c + seq![101u8, 45u8], digits((-e) as nat));
        }
    }
}

proof fn lemma_trailing_zeros_len(d: Seq<u8>)
    ensures
        trailing_zeros(d) <= d.len(),
    decreases d.len(),
{
    if d.len() > 0 {
        lemma_trailing_zeros_len(d.drop_last());
    }
}

proof fn lemma_number_ascii(n: crate::number::Number)
    ensures
        ascii_bytes(number_json(n)),
{
    reveal(crate::number::number_text);
    if !n.nan {
        let d = digits(n.mantissa as nat);
        lemma_digits_ascii(n.mantissa as nat);
        let sign: Seq<u8> = if n.positive { seq![] } else { seq![45u8] };
        if n.mantissa == 0 {
            lemma_ascii_concat(sign, seq![48u8]);
        } else {
            let t = trailing_zeros(d);
            let c = d.subrange(0, d.len() - t);
            lemma_trailing_zeros_len(d);
            assert forall|i: int| 0 <= i < c.len() implies #[trigger] c[i] < 0x80 by {
                assert(c[i] == d[i]);
            }
            lemma_significant_ascii(c, n.exponent + t);
            lemma_ascii_concat(sign, significant_text(c, n.exponent + t));
        }
    }
}

proof fn lemma_escape_byte_ascii(b: u8)
    requires
        b < 0x80,
    ensures
        ascii_bytes(escape_byte(b)),
{
}

/// Escaping valid UTF-8 gives valid UTF-8.
pub proof fn lemma_escaped_valid(b: Seq<u8>)
    requires
        valid_utf8(b),
    ensures
        valid_utf8(escaped(b)),
    decreases b.len(),
{
    if b.len() > 0 {
        let k = length_of_first_scalar(b);
        let f = b.subrange(0, k);
        let rest = pop_first_scalar(b);
        assert(b =~= f + rest);
        lemma_escaped_concat(f, rest);
        lemma_escaped_valid(rest);
        let x = escaped(rest);
        if k == 1 {
            assert(f.drop_last() =~= Seq::<u8>::empty());
            assert(f.last() == b[0]);
            assert(escaped(f) == escaped(f.drop_last()) + escape_byte(f.last()));
            assert(escaped(f) =~= escape_byte(b[0]));
            lemma_escape_byte_ascii(b[0]);
            lemma_ascii_valid(escaped(f));
            valid_utf8_concat(escaped(f), x);
        } else {
            assert(all_plain(f));
            lemma_escaped_plain(f);
            let y = f + x;
            assert forall|i: int| 0 <= i < k implies #[trigger] y[i] == b[i] by {}
            assert(valid_first_scalar(y));
            assert(pop_first_scalar(y) =~= x);
        }
    }
}

proof fn lemma_concat_valid(p: Seq<Seq<u8>>)
    requires
        forall|i: int| 0 <= i < p.len() ==> valid_utf8(#[trigger] p[i]),
    ensures
        valid_utf8(concat(p)),
    decreases p.len(),
{
    if p.len() > 0 {
        lemma_concat_valid(p.drop_last());
        valid_utf8_concat(concat(p.drop_last()), p.last());
    }
}

proof fn lemma_layout_ascii(step: Option<nat>, d: nat, i: int)
    ensures
        ascii_bytes(newline(step, d)),
        ascii_bytes(separator(step)),
        ascii_bytes(lead(i)),
{
}

proof fn lemma_quoted_valid(s: Seq<char>)
    ensures
        valid_utf8(quoted(encode_utf8(s))),
{
    encode_utf8_valid_utf8(s);
    lemma_escaped_valid(encode_utf8(s));
    lemma_ascii_valid(seq![0x22u8]);
    valid_utf8_concat(seq![0x22u8], escaped(encode_utf8(s)));
    valid_utf8_concat(seq![0x22u8] + escaped(encode_utf8(s)), seq![0x22u8]);
}

/// The text of every value is valid UTF-8.
pub proof fn lemma_text_valid(v: JsonModel, step: Option<nat>, d: nat)
    ensures
        valid_utf8(json_text(v, step, d)),
    decreases v, 1nat,
{
    match v {
        JsonModel::Num(n) => {
            lemma_number_ascii(n);
            lemma_ascii_valid(number_json(n));
        },
        JsonModel::Str(s) => {
            lemma_quoted_valid(s);
        },
        JsonModel::Arr(a) => {
            if a.len() > 0 {
                lemma_parts_valid(v, step, d + 1);
                lemma_container_valid(parts(v, step, d + 1), step, d, 91u8, 93u8);
            } else {
                lemma_ascii_valid(json_text(v, step, d));
            }
        },
        JsonModel::Obj(e) => {
            if e.len() > 0 {
                lemma_parts_valid(v, step, d + 1);
                lemma_container_valid(parts(v, step, d + 1), step, d, 123u8, 125u8);
            } else {
                lemma_ascii_valid(json_text(v, step, d));
            }
        },
        _ => {
            lemma_ascii_valid(json_text(v, step, d));
        },
    }
}

proof fn lemma_container_valid(p: Seq<Seq<u8>>, step: Option<nat>, d: nat, open: u8, close: u8)
    requires
        forall|i: int| 0 <= i < p.len() ==> valid_utf8(#[trigger] p[i]),
        open < 0x80,
        close < 0x80,
    ensures
        valid_utf8(seq![open] + concat(p) + newline(step, d) + seq![close]),
{
    lemma_concat_valid(p);
    lemma_layout_ascii(step, d, 0);
    lemma_ascii_valid(seq![open]);
    lemma_ascii_valid(newline(step, d));
    lemma_ascii_valid(seq![close]);
    valid_utf8_concat(seq![open], concat(p));
    valid_utf8_concat(seq![open] + concat(p), newline(step, d));
    valid_utf8_concat(seq![open] + concat(p) + newline(step, d), seq![close]);
}

proof fn lemma_parts_valid(v: JsonModel, step: Option<nat>, d: nat)
    ensures
        forall|i: int| 0 <= i < parts(v, step, d).len() ==> valid_utf8(#[trigger] parts(v, step, d)[i]),
    decreases v, 0nat,
{
    match v {
        JsonModel::Arr(a) => {
            assert(decreases_to!(v => v->Arr_0));
            assert forall|i: int| 0 <= i < parts(v, step, d).len() implies valid_utf8(#[trigger] parts(v, step, d)[i]) by {
                assert(decreases_to!(a => a[i]));
                lemma_text_valid(a[i], step, d);
                lemma_layout_ascii(step, d, i);
                lemma_ascii_concat(lead(i), newline(step, d));
                lemma_ascii_valid(lead(i) + newline(step, d));
                valid_utf8_concat(lead(i) + newline(step, d), json_text(a[i], step, d));
            }
        },
        JsonModel::Obj(e) => {
            assert(decreases_to!(v => v->Obj_0));
            assert forall|i: int| 0 <= i < parts(v, step, d).len() implies valid_utf8(#[trigger] parts(v, step, d)[i]) by {
                assert(decreases_to!(e => e[i]));
                assert(decreases_to!(e[i] => e[i].1));
                lemma_text_valid(e[i].1, step, d);
                lemma_layout_ascii(step, d, i);
                lemma_quoted_valid(e[i].0);
                lemma_ascii_concat(lead(i), newline(step, d));
                lemma_ascii_valid(lead(i) + newline(step, d));
                lemma_ascii_valid(separator(step));
                let a = lead(i) + newline(step, d);
                let q = quoted(encode_utf8(e[i].0));
                valid_utf8_concat(a, q);
                valid_utf8_concat(a + q, separator(step));
                valid_utf8_concat(a + q + separator(step), json_text(e[i].1, step, d));
            }
        },
        _ => {},
    }
}

} // verus!
