//! Byte classification and escaping of JSON string contents.
use vstd::prelude::*;

verus! {

/// The escape action for a byte: 0 when it passes through unchanged,
/// otherwise the letter written after the backslash (`u` for the generic
/// `\u00XX` form of a control character).
pub open spec fn escape_class(b: u8) -> u8 {
    if b == 0x22 {
        0x22
    } else if b == 0x5c {
        0x5c
    } else if b == 0x08 {
        0x62
    } else if b == 0x09 {
        0x74
    } else if b == 0x0a {
        0x6e
    } else if b == 0x0c {
        0x66
    } else if b == 0x0d {
        0x72
    } else if b < 0x20 {
        0x75
    } else {
        0
    }
}

/// The lowercase hexadecimal digit for `n < 16`.
pub open spec fn hex_digit(n: u8) -> u8 {
    if n < 10 {
        (48 + n) as u8
    } else {
        (87 + n) as u8
    }
}

/// What one byte becomes inside a JSON string.
pub open spec fn escape_byte(b: u8) -> Seq<u8> {
    let c = escape_class(b);
    if c == 0 {
        seq![b]
    } else if c == 0x75 {
        seq![0x5cu8, 0x75u8, 0x30u8, 0x30u8, hex_digit(b / 16), hex_digit(b % 16)]
    } else {
        seq![0x5cu8, c]
    }
}

/// The escaped form of a byte sequence: each byte escaped on its own.
pub open spec fn escaped(s: Seq<u8>) -> Seq<u8>
    decreases s.len(),
{
    if s.len() == 0 {
        seq![]
    } else {
        escaped(s.drop_last()) + escape_byte(s.last())
    }
}

/// No byte of `s` needs escaping.
pub open spec fn all_plain(s: Seq<u8>) -> bool {
    forall|i: int| 0 <= i < s.len() ==> escape_class(#[trigger] s[i]) == 0
}

/// A whole JSON string literal: quotes around the escaped bytes.
pub open spec fn quoted(s: Seq<u8>) -> Seq<u8> {
    seq![0x22u8] + escaped(s) + seq![0x22u8]
}

/// Escaping distributes over concatenation.
pub proof fn lemma_escaped_concat(a: Seq<u8>, b: Seq<u8>)
    ensures
        escaped(a + b) == escaped(a) + escaped(b),
    decreases b.len(),
{
    if b.len() == 0 {
        assert(a + b =~= a);
        assert(escaped(a) + escaped(b) =~= escaped(a));
    } else {
        assert((a + b).drop_last() =~= a + b.drop_last());
        assert((a + b).last() == b.last());
        lemma_escaped_concat(a, b.drop_last());
        assert(escaped(a + b) =~= escaped(a) + escaped(b));
    }
}

/// A run of bytes that need no escaping is written as it is.
pub proof fn lemma_escaped_plain(s: Seq<u8>)
    requires
        all_plain(s),
    ensures
        escaped(s) == s,
    decreases s.len(),
{
    if s.len() > 0 {
        assert(all_plain(s.drop_last()));
        lemma_escaped_plain(s.drop_last());
        assert(escape_class(s[s.len() - 1]) == 0);
        assert(escaped(s) =~= s);
    }
}

/// No escaped string holds a raw control byte: line feeds, tabs and the
/// other bytes below 0x20 always come out as escape sequences.
pub proof fn lemma_escaped_no_control(s: Seq<u8>)
    ensures
        forall|i: int| 0 <= i < escaped(s).len() ==> #[trigger] escaped(s)[i] >= 0x20,
    decreases s.len(),
{
    if s.len() > 0 {
        lemma_escaped_no_control(s.drop_last());
        let a = escaped(s.drop_last());
        let b = escape_byte(s.last());
        assert forall|i: int| 0 <= i < b.len() implies #[trigger] b[i] >= 0x20 by {}
        assert forall|i: int| 0 <= i < escaped(s).len() implies #[trigger] escaped(s)[i] >= 0x20 by {
            if i < a.len() {
                assert(escaped(s)[i] == a[i]);
            } else {
                assert(escaped(s)[i] == b[i - a.len()]);
            }
        }
    }
}

/// A quote and a backslash each come out behind a backslash.
pub proof fn lemma_quote_escaped(b: u8)
    requires
        b == 0x22 || b == 0x5c,
    ensures
        escape_byte(b) == seq![0x5cu8, b],
{
}

/// The escape action for `b`, as a lookup of the classification.
pub fn escape_code(b: u8) -> (r: u8)
    ensures
        r == escape_class(b),
{
    if b == 0x22 {
        0x22
    } else if b == 0x5c {
        0x5c
    } else if b == 0x08 {
        0x62
    } else if b == 0x09 {
        0x74
    } else if b == 0x0a {
        0x6e
    } else if b == 0x0c {
        0x66
    } else if b == 0x0d {
        0x72
    } else if b < 0x20 {
        0x75
    } else {
        0
    }
}

/// The lowercase hexadecimal digit for `n`.
pub fn hex(n: u8) -> (r: u8)
    requires
        n < 16,
    ensures
        r == hex_digit(n),
{
    if n < 10 {
        48 + n
    } else {
        87 + n
    }
}

} // verus!
