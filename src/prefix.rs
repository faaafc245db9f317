//! Byte sequences that grow only at their end.
use vstd::prelude::*;

verus! {

/// `b` begins with `a`: nothing of `a` was taken back.
pub open spec fn extends(a: Seq<u8>, b: Seq<u8>) -> bool {
    a.len() <= b.len() && b.subrange(0, a.len() as int) == a
}

/// A sequence extends itself with anything appended.
pub broadcast proof fn lemma_extends_append(a: Seq<u8>, x: Seq<u8>)
    ensures
        extends(a, #[trigger] (a + x)),
{
    assert((a + x).subrange(0, a.len() as int) =~= a);
}

/// A sequence extends itself with one more element.
pub broadcast proof fn lemma_extends_push(a: Seq<u8>, x: u8)
    ensures
        extends(a, #[trigger] a.push(x)),
{
    assert(a.push(x).subrange(0, a.len() as int) =~= a);
}

/// Extending is transitive.
pub broadcast proof fn lemma_extends_trans(a: Seq<u8>, b: Seq<u8>, c: Seq<u8>)
    requires
        #[trigger] extends(a, b),
        #[trigger] extends(b, c),
    ensures
        extends(a, c),
{
    assert(c.subrange(0, a.len() as int) =~= b.subrange(0, a.len() as int));
}

} // verus!
