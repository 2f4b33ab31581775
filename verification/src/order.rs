//! The order in which names are processed: byte-wise lexicographic, and a
//! sort that puts a list of names into it.

use vstd::prelude::*;
use vstd::multiset::Multiset;
use vstd::relations::{sorted_by, total_ordering};
use vstd::seq_lib::{lemma_sorted_unique, to_multiset_insert};
use crate::name::{le, lex_le};
use crate::views::{inserted_name, name_at, popped_name};

verus! {

/// The order on names, as a relation.
pub open spec fn name_order() -> spec_fn(Seq<u8>, Seq<u8>) -> bool {
    |a: Seq<u8>, b: Seq<u8>| lex_le(a, b)
}

/// The names of `names` in ascending order.
pub open spec fn sorted(names: Seq<Seq<u8>>) -> Seq<Seq<u8>> {
    names.sort_by(name_order())
}

/// Every name comes no later than itself.
pub proof fn lex_le_reflexive(a: Seq<u8>)
    ensures
        lex_le(a, a),
    decreases a.len(),
{
    if a.len() > 0 {
        lex_le_reflexive(a.drop_first());
    }
}

/// Two names that each come no later than the other are the same name.
pub proof fn lex_le_antisymmetric(a: Seq<u8>, b: Seq<u8>)
    requires
        lex_le(a, b),
        lex_le(b, a),
    ensures
        a == b,
    decreases a.len(),
{
    if a.len() > 0 {
        lex_le_antisymmetric(a.drop_first(), b.drop_first());
        assert(a =~= seq![a[0]] + a.drop_first());
        assert(b =~= seq![b[0]] + b.drop_first());
    } else {
        assert(a =~= b);
    }
}

/// The order passes through a name in the middle.
pub proof fn lex_le_transitive(a: Seq<u8>, b: Seq<u8>, c: Seq<u8>)
    requires
        lex_le(a, b),
        lex_le(b, c),
    ensures
        lex_le(a, c),
    decreases a.len(),
{
    if a.len() > 0 && a[0] == b[0] && b[0] == c[0] {
        lex_le_transitive(a.drop_first(), b.drop_first(), c.drop_first());
    }
}

/// Of two names one comes no later than the other.
pub proof fn lex_le_total(a: Seq<u8>, b: Seq<u8>)
    ensures
        lex_le(a, b) || lex_le(b, a),
    decreases a.len(),
{
    if a.len() > 0 && b.len() > 0 && a[0] == b[0] {
        lex_le_total(a.drop_first(), b.drop_first());
    }
}

/// The byte order is a total order on names.
pub proof fn name_order_is_total()
    ensures
        total_ordering(name_order()),
{
    let r = name_order();
    assert forall|x: Seq<u8>| #[trigger] r(x, x) by {
        lex_le_reflexive(x);
    }
    assert forall|x: Seq<u8>, y: Seq<u8>| #[trigger] r(x, y) && #[trigger] r(y, x) implies x
        == y by {
        lex_le_antisymmetric(x, y);
    }
    assert forall|x: Seq<u8>, y: Seq<u8>, z: Seq<u8>| #[trigger] r(x, y) && #[trigger] r(
        y,
        z,
    ) implies r(x, z) by {
        lex_le_transitive(x, y, z);
    }
    assert forall|x: Seq<u8>, y: Seq<u8>| #[trigger] r(x, y) || #[trigger] r(y, x) by {
        lex_le_total(x, y);
    }
}

/// The sorted form of `names` is ascending and holds each name as often as
/// `names` does.
pub proof fn sorted_rearranges(names: Seq<Seq<u8>>)
    ensures
        sorted_by(sorted(names), name_order()),
        sorted(names).to_multiset() == names.to_multiset(),
{
    name_order_is_total();
    names.lemma_sort_by_ensures(name_order());
}

/// An ascending rearrangement of `names` is the sorted form of `names`:
/// there is only one.
pub proof fn sorted_is_unique(names: Seq<Seq<u8>>, arranged: Seq<Seq<u8>>)
    requires
        sorted_by(arranged, name_order()),
        arranged.to_multiset() == names.to_multiset(),
    ensures
        arranged == sorted(names),
{
    name_order_is_total();
    names.lemma_sort_by_ensures(name_order());
    lemma_sorted_unique(arranged, sorted(names), name_order());
}

/// Sorts names into ascending byte order.
pub fn sort_names(names: Vec<Vec<u8>>) -> (out: Vec<Vec<u8>>)
    ensures
        out.deep_view() == sorted(names.deep_view()),
{
    let ghost given = names.deep_view();
    let mut rest = names;
    let mut out: Vec<Vec<u8>> = Vec::new();
    proof {
        assert(out.deep_view() =~= Seq::<Seq<u8>>::empty());
        assert(out.deep_view().to_multiset() =~= Multiset::<Seq<u8>>::empty()) by {
            broadcast use vstd::seq_lib::group_to_multiset_ensures;
        }
        assert(out.deep_view().to_multiset().add(rest.deep_view().to_multiset())
            =~= given.to_multiset());
    }
    while rest.len() > 0
        invariant
            sorted_by(out.deep_view(), name_order()),
            out.deep_view().to_multiset().add(rest.deep_view().to_multiset())
                == given.to_multiset(),
        decreases rest.len(),
    {
        let ghost rest_before = rest;
        let ghost out_before = out;
        let name = rest.pop().unwrap();
        let mut pos: usize = 0;
        while pos < out.len() && le(out[pos].as_slice(), name.as_slice())
            invariant
                pos <= out.len(),
                forall|k: int| 0 <= k < pos ==> lex_le(#[trigger] out.deep_view()[k], name@),
            decreases out.len() - pos,
        {
            proof {
                name_at(out, pos as int);
            }
            pos += 1;
        }
        proof {
            if pos < out.len() {
                name_at(out, pos as int);
                lex_le_total(out[pos as int]@, name@);
            }
        }
        out.insert(pos, name);
        proof {
            inserted_name(out_before, out, pos as int, name);
            popped_name(rest_before, rest);
            let before = out_before.deep_view();
            let after = out.deep_view();
            assert(sorted_by(after, name_order())) by {
                assert forall|i: int, j: int| 0 <= i < j < after.len() implies #[trigger] name_order()(
                    after[i],
                    after[j],
                ) by {
                    if j < pos {
                        assert(name_order()(before[i], before[j]));
                    } else if j == pos {
                        assert(lex_le(before[i], name@));
                    } else if i < pos {
                        assert(name_order()(before[i], before[j - 1]));
                    } else if i == pos {
                        if j - 1 > pos {
                            assert(name_order()(before[pos as int], before[j - 1]));
                            lex_le_transitive(name@, before[pos as int], before[j - 1]);
                        }
                    } else {
                        assert(name_order()(before[i - 1], before[j - 1]));
                    }
                }
            }
            to_multiset_insert(before, pos as int, name@);
            let old_rest = rest_before.deep_view();
            assert(old_rest =~= old_rest.drop_last().push(old_rest.last()));
            vstd::seq_lib::to_multiset_build(old_rest.drop_last(), old_rest.last());
            assert(after.to_multiset().add(rest.deep_view().to_multiset())
                =~= before.to_multiset().add(old_rest.to_multiset()));
        }
    }
    proof {
        assert(rest.deep_view() =~= Seq::<Seq<u8>>::empty());
        assert(rest.deep_view().to_multiset() =~= Multiset::<Seq<u8>>::empty()) by {
            broadcast use vstd::seq_lib::group_to_multiset_ensures;
        }
        assert(out.deep_view().to_multiset() =~= given.to_multiset());
        sorted_is_unique(given, out.deep_view());
    }
    out
}

} // verus!
