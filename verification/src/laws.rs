//! General laws of the editing operations, stated over the document model
//! and proved once for all inputs.

use vstd::prelude::*;

verus! {

use crate::text::{clamped, removed, spliced};

/// Round trip: a slice is exactly the piece missing between the prefix
/// before it and the suffix after it — adjacent slices of the serialized
/// document reassemble the document, and the full-range slice is the
/// document itself.
pub proof fn lemma_slice_round_trip(doc: Seq<char>, p: int, n: int)
    requires
        0 <= p,
        0 <= n,
        p + n <= doc.len(),
    ensures
        doc.take(p) + doc.subrange(p, p + n) + doc.skip(p + n) == doc,
        doc.subrange(0, doc.len() as int) == doc,
{
    assert(doc.take(p) + doc.subrange(p, p + n) + doc.skip(p + n) =~= doc);
    assert(doc.subrange(0, doc.len() as int) =~= doc);
}

/// Insertion correctness: the spliced document keeps the prefix unchanged,
/// embeds the inserted text at `p`, and shifts the suffix by the inserted
/// length.
pub proof fn lemma_insert_correct(doc: Seq<char>, p: int, s: Seq<char>)
    requires
        0 <= p <= doc.len(),
    ensures
        spliced(doc, p, s).len() == doc.len() + s.len(),
        forall|j: int| 0 <= j < p ==> #[trigger] spliced(doc, p, s)[j] == doc[j],
        forall|j: int| 0 <= j < s.len() ==> #[trigger] spliced(doc, p, s)[p + j] == s[j],
        forall|j: int| p <= j < doc.len() ==> #[trigger] spliced(doc, p, s)[j + s.len()] == doc[j],
{
}

/// Deletion correctness: deleting `n` characters at `p` removes exactly
/// `min(n, doc.len() - p)` characters, keeps the prefix unchanged, and
/// shifts the surviving suffix down by the removed count.
pub proof fn lemma_delete_correct(doc: Seq<char>, p: int, n: int)
    requires
        0 <= p <= doc.len(),
        0 <= n,
    ensures
        removed(doc, p, n).len() == doc.len() - clamped(doc, p, n),
        forall|j: int| 0 <= j < p ==> #[trigger] removed(doc, p, n)[j] == doc[j],
        forall|j: int|
            p <= j < removed(doc, p, n).len() ==> #[trigger] removed(doc, p, n)[j] == doc[j
                + clamped(doc, p, n)],
{
}

/// Inserting text and then deleting the same character count at the same
/// position restores the original document.
pub proof fn lemma_insert_then_delete(doc: Seq<char>, p: int, s: Seq<char>)
    requires
        0 <= p <= doc.len(),
    ensures
        removed(spliced(doc, p, s), p, s.len() as int) == doc,
{
    assert(removed(spliced(doc, p, s), p, s.len() as int) =~= doc);
}

/// Idempotent empty edits: inserting the empty text or deleting zero
/// characters leaves the document unchanged.
pub proof fn lemma_empty_edits(doc: Seq<char>, p: int)
    requires
        0 <= p <= doc.len(),
    ensures
        spliced(doc, p, Seq::<char>::empty()) == doc,
        removed(doc, p, 0) == doc,
{
    assert(spliced(doc, p, Seq::<char>::empty()) =~= doc);
    assert(removed(doc, p, 0) =~= doc);
}

} // verus!
