//! What there is to find in a tree, counted without regard to order, and
//! the proof that a walk publishes exactly that.

use vstd::prelude::*;
use vstd::multiset::Multiset;
use crate::frame::{
    frame_dirs, frame_files, match_test, matching_names, selection_step, subdirectory_names,
    subdirectory_test,
};
use crate::name::{has_suffix, is_hidden, joined};
use crate::order::{name_order, name_order_is_total};
use crate::snapshot::{listed, listing, subdirectory, subdirectory_is_lighter, weight, Item, Node, Snapshot};
use crate::tally::{to_multiset_concat, total, total_concat, total_permutation, total_push};
use crate::walk::{emitted, emitted_below, emitted_under};
use crate::walker::{level_files, paths_in};

verus! {

/// No two entries of a directory share a name, at any depth.
pub open spec fn well_formed(nodes: Seq<Node>) -> bool
    decreases nodes,
{
    &&& forall|i: int, j: int|
        0 <= i < j < nodes.len() ==> (#[trigger] nodes[i]).name@ != (#[trigger] nodes[j]).name@
    &&& forall|i: int|
        0 <= i < nodes.len() ==> ((#[trigger] nodes[i]).item matches Item::Directory(sub)
            ==> well_formed(sub.entries@))
}

/// The paths of the files that match below `dir`, whose entries are
/// `nodes`: every regular file whose name ends with the suffix and that is
/// reached without passing through a hidden name, each counted once.
pub open spec fn matches_among(nodes: Seq<Node>, dir: Seq<u8>, suffix: Seq<u8>) -> Multiset<
    Seq<u8>,
>
    decreases nodes, 1nat,
{
    if nodes.len() == 0 {
        Multiset::empty()
    } else {
        matches_among(nodes.drop_last(), dir, suffix).add(
            matches_of(nodes.last(), dir, suffix),
        )
    }
}

/// The paths of the matching files that the entry `node` of the directory
/// `dir` stands for.
pub open spec fn matches_of(node: Node, dir: Seq<u8>, suffix: Seq<u8>) -> Multiset<Seq<u8>>
    decreases node, 0nat,
{
    if is_hidden(node.name@) {
        Multiset::empty()
    } else {
        match node.item {
            Item::File(_) => if has_suffix(node.name@, suffix) {
                Multiset::singleton(joined(dir, node.name@))
            } else {
                Multiset::empty()
            },
            Item::Directory(sub) => matches_among(sub.entries@, joined(dir, node.name@), suffix),
            Item::Other => Multiset::empty(),
        }
    }
}

/// What the file called `name` adds to the count of a level.
pub open spec fn file_share(dir: Seq<u8>) -> spec_fn(Seq<u8>) -> Multiset<Seq<u8>> {
    |name: Seq<u8>| Multiset::singleton(joined(dir, name))
}

/// What the subdirectory called `name` adds to the count of a level.
pub open spec fn directory_share(tree: Snapshot, dir: Seq<u8>, suffix: Seq<u8>) -> spec_fn(
    Seq<u8>,
) -> Multiset<Seq<u8>> {
    |name: Seq<u8>| emitted_under(tree, dir, suffix, name).to_multiset()
}

/// Where names are distinct, a directory is found by its name.
proof fn found_by_name(nodes: Seq<Node>, i: int)
    requires
        0 <= i < nodes.len(),
        nodes[i].item is Directory,
        forall|a: int, b: int|
            0 <= a < b < nodes.len() ==> (#[trigger] nodes[a]).name@ != (#[trigger] nodes[b]).name@,
    ensures
        subdirectory(nodes, nodes[i].name@) == Some(nodes[i].item->Directory_0),
    decreases nodes.len(),
{
    if i > 0 {
        let rest = nodes.drop_first();
        assert forall|a: int, b: int| 0 <= a < b < rest.len() implies (#[trigger] rest[a]).name@
            != (#[trigger] rest[b]).name@ by {
            assert(rest[a] == nodes[a + 1]);
            assert(rest[b] == nodes[b + 1]);
        }
        assert(rest[i - 1] == nodes[i]);
        found_by_name(rest, i - 1);
        assert(nodes[0].name@ != nodes[i].name@);
    }
}

/// The paths of the entries `names`, counted, as a sum over the names.
proof fn paths_total(dir: Seq<u8>, names: Seq<Seq<u8>>)
    ensures
        paths_in(dir, names).to_multiset() == total(names, file_share(dir)),
    decreases names.len(),
{
    broadcast use vstd::multiset::group_multiset_axioms;

    let paths = paths_in(dir, names);
    if names.len() == 0 {
        assert(paths.to_multiset() =~= Multiset::<Seq<u8>>::empty()) by {
            broadcast use vstd::seq_lib::group_to_multiset_ensures;

        }
    } else {
        paths_total(dir, names.drop_last());
        assert(paths =~= paths_in(dir, names.drop_last()).push(joined(dir, names.last())));
        vstd::seq_lib::to_multiset_build(
            paths_in(dir, names.drop_last()),
            joined(dir, names.last()),
        );
        assert(paths.to_multiset() =~= total(names, file_share(dir)));
    }
}

/// What the subdirectories `names` publish, counted, as a sum over the
/// names.
proof fn below_total(tree: Snapshot, dir: Seq<u8>, suffix: Seq<u8>, names: Seq<Seq<u8>>)
    ensures
        emitted_below(tree, dir, suffix, names).to_multiset() == total(
            names,
            directory_share(tree, dir, suffix),
        ),
    decreases names.len(),
{
    broadcast use vstd::multiset::group_multiset_axioms;

    let g = directory_share(tree, dir, suffix);
    if names.len() == 0 {
        assert(emitted_below(tree, dir, suffix, names).to_multiset() =~= Multiset::<
            Seq<u8>,
        >::empty()) by {
            broadcast use vstd::seq_lib::group_to_multiset_ensures;

        }
    } else {
        let first = seq![names[0]];
        let tail = names.drop_first();
        below_total(tree, dir, suffix, tail);
        to_multiset_concat(
            emitted_under(tree, dir, suffix, names[0]),
            emitted_below(tree, dir, suffix, tail),
        );
        assert(names =~= first + tail);
        total_concat(first, tail, g);
        assert(first.drop_last() =~= Seq::<Seq<u8>>::empty());
        assert(total(first.drop_last(), g) =~= Multiset::<Seq<u8>>::empty());
        assert(total(first, g) =~= g(names[0]));
    }
}

/// The first `k` entries of a directory add to the count of its level what
/// they stand for.
proof fn level_census(tree: Snapshot, dir: Seq<u8>, suffix: Seq<u8>, k: int)
    requires
        well_formed(tree.entries@),
        0 <= k <= tree.entries@.len(),
    ensures
        total(
            matching_names(listing(tree.entries@).take(k), suffix),
            file_share(dir),
        ).add(
            total(
                subdirectory_names(listing(tree.entries@).take(k)),
                directory_share(tree, dir, suffix),
            ),
        ) == matches_among(tree.entries@.take(k), dir, suffix),
    decreases weight(tree.entries@), 0nat, k,
{
    broadcast use vstd::multiset::group_multiset_axioms;

    let nodes = tree.entries@;
    let entries = listing(nodes);
    let files = file_share(dir);
    let dirs = directory_share(tree, dir, suffix);
    if k == 0 {
        assert(entries.take(0) =~= Seq::<crate::frame::Listed>::empty());
        assert(entries.take(0).filter(match_test(suffix)).len() == 0) by {
            entries.take(0).lemma_filter_len(match_test(suffix));
        }
        assert(entries.take(0).filter(subdirectory_test()).len() == 0) by {
            entries.take(0).lemma_filter_len(subdirectory_test());
        }
        assert(total(matching_names(entries.take(0), suffix), files).add(
            total(subdirectory_names(entries.take(0)), dirs),
        ) =~= matches_among(nodes.take(0), dir, suffix));
    } else {
        let node = nodes[k - 1];
        level_census(tree, dir, suffix, k - 1);
        selection_step(entries, k - 1, match_test(suffix));
        selection_step(entries, k - 1, subdirectory_test());
        assert(entries[k - 1] == listed(node));
        assert(nodes.take(k).drop_last() =~= nodes.take(k - 1));
        assert(nodes.take(k).last() == node);
        let before_files = matching_names(entries.take(k - 1), suffix);
        let before_dirs = subdirectory_names(entries.take(k - 1));
        total_push(before_files, node.name@, files);
        total_push(before_dirs, node.name@, dirs);
        let share = matches_of(node, dir, suffix);
        let sum_before = total(before_files, files).add(total(before_dirs, dirs));
        let sum_after = total(matching_names(entries.take(k), suffix), files).add(
            total(subdirectory_names(entries.take(k)), dirs),
        );
        assert(matches_among(nodes.take(k), dir, suffix) == sum_before.add(share));
        let is_file_match = match_test(suffix)(entries[k - 1]);
        let is_directory = subdirectory_test()(entries[k - 1]);
        if is_directory {
            assert(!is_file_match);
            found_by_name(nodes, k - 1);
            subdirectory_is_lighter(nodes, node.name@);
            let sub = node.item->Directory_0;
            every_match_once(sub, joined(dir, node.name@), suffix);
            assert(emitted_under(tree, dir, suffix, node.name@) == emitted(
                sub,
                joined(dir, node.name@),
                suffix,
            ));
            assert(dirs(node.name@) == share);
            assert(sum_after =~= sum_before.add(share));
        } else if is_file_match {
            assert(files(node.name@) == share);
            assert(sum_after =~= sum_before.add(share));
        } else {
            assert(share =~= Multiset::<Seq<u8>>::empty());
            assert(sum_after =~= sum_before.add(share));
        }
    }
}

/// A walk publishes the path of every matching file of the tree, each
/// exactly once, and nothing else.
pub proof fn every_match_once(tree: Snapshot, dir: Seq<u8>, suffix: Seq<u8>)
    requires
        well_formed(tree.entries@),
    ensures
        emitted(tree, dir, suffix).to_multiset() == matches_among(tree.entries@, dir, suffix),
    decreases weight(tree.entries@), 1nat, 0nat,
{
    let nodes = tree.entries@;
    let entries = listing(nodes);
    let file_names = matching_names(entries, suffix);
    let dir_names = subdirectory_names(entries);
    name_order_is_total();
    file_names.lemma_sort_by_ensures(name_order());
    dir_names.lemma_sort_by_ensures(name_order());
    to_multiset_concat(
        level_files(entries, dir, suffix),
        emitted_below(tree, dir, suffix, frame_dirs(entries)),
    );
    paths_total(dir, frame_files(entries, suffix));
    below_total(tree, dir, suffix, frame_dirs(entries));
    total_permutation(frame_files(entries, suffix), file_names, file_share(dir));
    total_permutation(frame_dirs(entries), dir_names, directory_share(tree, dir, suffix));
    level_census(tree, dir, suffix, nodes.len() as int);
    assert(entries.take(nodes.len() as int) =~= entries);
    assert(nodes.take(nodes.len() as int) =~= nodes);
}

} // verus!
