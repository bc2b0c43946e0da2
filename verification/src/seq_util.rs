//! Small general-purpose lemmas about sequences used across the crate.

use vstd::prelude::*;

verus! {

/// Taking one more element appends that element.
pub proof fn lemma_take_push<A>(s: Seq<A>, i: int)
    requires
        0 <= i < s.len(),
    ensures
        s.take(i + 1) == s.take(i).push(s[i]),
{
    assert(s.take(i + 1) =~= s.take(i).push(s[i]));
}

/// Filtering a sequence extended by one element appends that element
/// exactly when it satisfies the predicate.
pub proof fn lemma_filter_push<A>(s: Seq<A>, pred: spec_fn(A) -> bool, x: A)
    ensures
        s.push(x).filter(pred) == if pred(x) {
            s.filter(pred).push(x)
        } else {
            s.filter(pred)
        },
{
    reveal(Seq::filter);
    assert(s.push(x).drop_last() =~= s);
    if pred(x) {
        assert(s.push(x).filter(pred) =~= s.filter(pred).push(x));
    }
}

/// Every element of a filtered sequence occurs in the original.
pub proof fn lemma_filter_element_of<A>(s: Seq<A>, pred: spec_fn(A) -> bool, p: int)
    requires
        0 <= p < s.filter(pred).len(),
    ensures
        exists|i: int| 0 <= i < s.len() && s[i] == s.filter(pred)[p],
    decreases s.len(),
{
    reveal(Seq::filter);
    if s.len() > 0 {
        let d = s.drop_last();
        if p < d.filter(pred).len() {
            lemma_filter_element_of(d, pred, p);
            let i = choose|i: int| 0 <= i < d.len() && d[i] == d.filter(pred)[p];
            assert(s[i] == s.filter(pred)[p]);
        } else {
            assert(s[s.len() - 1] == s.filter(pred)[p]);
        }
    }
}

/// The filtered prefix is a prefix of the filtered whole: the element at
/// position `|filter(take(i))|` of the filtered sequence is `s[i]`, whenever
/// `s[i]` passes the filter.
pub proof fn lemma_filter_take_index<A>(s: Seq<A>, pred: spec_fn(A) -> bool, i: int)
    requires
        0 <= i < s.len(),
        pred(s[i]),
    ensures
        s.take(i).filter(pred).len() < s.filter(pred).len(),
        s.filter(pred)[s.take(i).filter(pred).len() as int] == s[i],
        s.take(i + 1).filter(pred).len() == s.take(i).filter(pred).len() + 1,
{
    lemma_take_push(s, i);
    lemma_filter_push(s.take(i), pred, s[i]);
    assert(s =~= s.take(i + 1) + s.skip(i + 1));
    Seq::filter_distributes_over_add(s.take(i + 1), s.skip(i + 1), pred);
}

/// Two sequences that agree pointwise on a range have equal subranges there.
pub proof fn lemma_subrange_eq<A>(d1: Seq<A>, d2: Seq<A>, a: int, b: int)
    requires
        d1.len() == d2.len(),
        0 <= a <= b <= d1.len(),
        forall|k: int| a <= k < b ==> d1[k] == d2[k],
    ensures
        d1.subrange(a, b) == d2.subrange(a, b),
{
    assert(d1.subrange(a, b) =~= d2.subrange(a, b));
}

/// A fully skipped or exhausted prefix: once `i` reaches the length of `s`,
/// the filtered prefix is the filtered whole.
pub proof fn lemma_filter_take_all<A>(s: Seq<A>, pred: spec_fn(A) -> bool)
    ensures
        s.take(s.len() as int).filter(pred) == s.filter(pred),
{
    assert(s.take(s.len() as int) =~= s);
}

} // verus!
