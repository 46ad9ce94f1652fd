//! Small facts about sequences that several modules use.

use vstd::prelude::*;

verus! {

/// Filtering a sequence with one more item at its end keeps that item exactly
/// when it passes.
pub proof fn lemma_filter_push<A>(s: Seq<A>, x: A, pred: spec_fn(A) -> bool)
    ensures
        s.push(x).filter(pred) == if pred(x) {
            s.filter(pred).push(x)
        } else {
            s.filter(pred)
        },
{
    reveal(Seq::filter);
    assert(s.push(x).drop_last() =~= s);
}

/// Filtering what was filtered with the same test changes nothing, and
/// every item of a filtered sequence is an item of the sequence.
pub proof fn lemma_filter_twice<A>(s: Seq<A>, pred: spec_fn(A) -> bool)
    ensures
        s.filter(pred).filter(pred) == s.filter(pred),
        forall|j: int| 0 <= j < s.filter(pred).len() ==> s.contains(#[trigger] s.filter(pred)[j]),
    decreases s.len(),
{
    reveal(Seq::filter);
    if s.len() > 0 {
        let head = s.drop_last();
        lemma_filter_twice(head, pred);
        if pred(s.last()) {
            lemma_filter_push(head.filter(pred), s.last(), pred);
        }
        let f = s.filter(pred);
        assert forall|j: int| 0 <= j < f.len() implies s.contains(#[trigger] f[j]) by {
            if j < head.filter(pred).len() {
                assert(head.contains(head.filter(pred)[j]));
                let i = choose|i: int| 0 <= i < head.len() && head[i] == head.filter(pred)[j];
                assert(s[i] == f[j]);
            } else {
                assert(s[s.len() - 1] == f[j]);
            }
        }
    }
}

} // verus!
