//! Sums of multisets over the elements of a sequence, and the fact that
//! such a sum does not depend on the order of the elements.

use vstd::prelude::*;
use vstd::multiset::Multiset;
use vstd::seq_lib::{commutative_foldl, lemma_fold_left_permutation, lemma_multiset_commutative};

verus! {

/// The sum of the multisets that `g` gives for the elements of `s`.
pub open spec fn total<A, B>(s: Seq<A>, g: spec_fn(A) -> Multiset<B>) -> Multiset<B>
    decreases s.len(),
{
    if s.len() == 0 {
        Multiset::empty()
    } else {
        total(s.drop_last(), g).add(g(s.last()))
    }
}

/// One more element adds what `g` gives for it.
pub proof fn total_push<A, B>(s: Seq<A>, a: A, g: spec_fn(A) -> Multiset<B>)
    ensures
        total(s.push(a), g) == total(s, g).add(g(a)),
{
    assert(s.push(a).drop_last() =~= s);
}

/// The sum over a concatenation is the sum of the sums over its parts.
pub proof fn total_concat<A, B>(a: Seq<A>, b: Seq<A>, g: spec_fn(A) -> Multiset<B>)
    ensures
        total(a + b, g) == total(a, g).add(total(b, g)),
    decreases b.len(),
{
    broadcast use vstd::multiset::group_multiset_axioms;

    if b.len() == 0 {
        assert(a + b =~= a);
        assert(total(a, g).add(total(b, g)) =~= total(a, g));
    } else {
        total_concat(a, b.drop_last(), g);
        assert((a + b).drop_last() =~= a + b.drop_last());
        assert(total(a + b, g) =~= total(a, g).add(total(b, g)));
    }
}

/// Rearranging the elements leaves the sum unchanged.
pub proof fn total_permutation<A, B>(a: Seq<A>, b: Seq<A>, g: spec_fn(A) -> Multiset<B>)
    requires
        a.to_multiset() == b.to_multiset(),
    ensures
        total(a, g) == total(b, g),
{
    let f = |acc: Multiset<B>, x: A| acc.add(g(x));
    assert(commutative_foldl(f)) by {
        broadcast use vstd::multiset::group_multiset_axioms;

        assert forall|x: A, y: A, v: Multiset<B>| #[trigger] f(f(v, x), y) == f(f(v, y), x) by {
            assert(v.add(g(x)).add(g(y)) =~= v.add(g(y)).add(g(x)));
        }
    }
    total_is_fold(a, g);
    total_is_fold(b, g);
    lemma_fold_left_permutation(a, b, f, Multiset::empty());
}

/// The sum as a fold from the left.
proof fn total_is_fold<A, B>(s: Seq<A>, g: spec_fn(A) -> Multiset<B>)
    ensures
        total(s, g) == s.fold_left(Multiset::empty(), |acc: Multiset<B>, x: A| acc.add(g(x))),
    decreases s.len(),
{
    if s.len() > 0 {
        total_is_fold(s.drop_last(), g);
    }
}

/// The elements of a concatenation, counted, are those of its parts.
pub proof fn to_multiset_concat<A>(a: Seq<A>, b: Seq<A>)
    ensures
        (a + b).to_multiset() == a.to_multiset().add(b.to_multiset()),
{
    lemma_multiset_commutative(a, b);
}

} // verus!
