//! What holds of every walk: the order of publication, and that hidden
//! entries and the order of a listing have no influence on it.

use vstd::prelude::*;
use vstd::multiset::Multiset;
use vstd::relations::sorted_by;
use crate::frame::{
    frame_dirs, frame_files, is_match, is_subdirectory, match_test, matching_names, name_of,
    selection_step, subdirectory_names, subdirectory_test, Listed,
};
use crate::name::{is_hidden, joined};
use crate::order::{name_order, name_order_is_total, sorted, sorted_is_unique, sorted_rearranges};
use crate::snapshot::{
    listed, listing, subdirectory, subdirectory_is_lighter, weight, Item, Node, Snapshot,
};
use crate::tally::{total, total_permutation, total_push};
use crate::walk::{emitted, emitted_below, emitted_under, scheduled_directories_exist};
use crate::walker::{level_files, paths_in};

verus! {

/// Within one level, the matching files and the subdirectories are each in
/// ascending byte order of their names.
pub proof fn level_is_ascending(entries: Seq<Listed>, suffix: Seq<u8>)
    ensures
        sorted_by(frame_files(entries, suffix), name_order()),
        sorted_by(frame_dirs(entries), name_order()),
{
    sorted_rearranges(matching_names(entries, suffix));
    sorted_rearranges(subdirectory_names(entries));
}

/// The matching files of a directory are all published before anything
/// that lies in one of its subdirectories.
pub proof fn files_come_first(tree: Snapshot, dir: Seq<u8>, suffix: Seq<u8>)
    ensures
        ({
            let entries = listing(tree.entries@);
            let files = frame_files(entries, suffix);
            let out = emitted(tree, dir, suffix);
            &&& files.len() <= out.len()
            &&& out.take(files.len() as int) == paths_in(dir, files)
            &&& out.skip(files.len() as int) == emitted_below(
                tree,
                dir,
                suffix,
                frame_dirs(entries),
            )
        }),
{
    let entries = listing(tree.entries@);
    let files = level_files(entries, dir, suffix);
    let below = emitted_below(tree, dir, suffix, frame_dirs(entries));
    assert((files + below).take(files.len() as int) =~= files);
    assert((files + below).skip(files.len() as int) =~= below);
}

/// What lies below a directory is published one subdirectory after the
/// other: all of an earlier one before any of a later one.
pub proof fn subdirectories_in_turn(
    tree: Snapshot,
    dir: Seq<u8>,
    suffix: Seq<u8>,
    names: Seq<Seq<u8>>,
    i: int,
)
    requires
        0 <= i < names.len(),
    ensures
        emitted_below(tree, dir, suffix, names) == emitted_below(
            tree,
            dir,
            suffix,
            names.take(i),
        ) + emitted_under(tree, dir, suffix, names[i]) + emitted_below(
            tree,
            dir,
            suffix,
            names.skip(i + 1),
        ),
    decreases i,
{
    let tail = names.drop_first();
    if i == 0 {
        assert(names.take(0) =~= Seq::<Seq<u8>>::empty());
        assert(names.skip(1) =~= tail);
        assert(emitted_below(tree, dir, suffix, names.take(0)) =~= Seq::<Seq<u8>>::empty());
        assert(emitted_below(tree, dir, suffix, names) =~= emitted_below(
            tree,
            dir,
            suffix,
            names.take(0),
        ) + emitted_under(tree, dir, suffix, names[0]) + emitted_below(
            tree,
            dir,
            suffix,
            names.skip(1),
        ));
    } else {
        subdirectories_in_turn(tree, dir, suffix, tail, i - 1);
        assert(tail.take(i - 1) =~= names.take(i).drop_first());
        assert(tail.skip(i) =~= names.skip(i + 1));
        assert(names.take(i)[0] == names[0]);
        let head = emitted_under(tree, dir, suffix, names[0]);
        let before = emitted_below(tree, dir, suffix, tail.take(i - 1));
        let this = emitted_under(tree, dir, suffix, names[i]);
        let after = emitted_below(tree, dir, suffix, names.skip(i + 1));
        assert(emitted_below(tree, dir, suffix, names.take(i)) == head + before);
        assert(head + (before + this + after) =~= (head + before) + this + after);
    }
}

/// What a selection of names holds, counted, as a sum over the listing.
proof fn selection_total(entries: Seq<Listed>, test: spec_fn(Listed) -> bool, k: int)
    requires
        0 <= k <= entries.len(),
    ensures
        entries.take(k).filter(test).map_values(name_of()).to_multiset() == total(
            entries.take(k),
            |e: Listed|
                if test(e) {
                    Multiset::singleton(e.name)
                } else {
                    Multiset::empty()
                },
        ),
    decreases k,
{
    broadcast use vstd::multiset::group_multiset_axioms;

    let g = |e: Listed|
        if test(e) {
            Multiset::singleton(e.name)
        } else {
            Multiset::empty()
        };
    if k == 0 {
        assert(entries.take(0).filter(test).len() == 0) by {
            entries.take(0).lemma_filter_len(test);
        }
        assert(entries.take(0).filter(test).map_values(name_of()).to_multiset()
            =~= Multiset::<Seq<u8>>::empty()) by {
            broadcast use vstd::seq_lib::group_to_multiset_ensures;

        }
    } else {
        selection_total(entries, test, k - 1);
        selection_step(entries, k - 1, test);
        let names = entries.take(k - 1).filter(test).map_values(name_of());
        assert(entries.take(k) =~= entries.take(k - 1).push(entries[k - 1]));
        total_push(entries.take(k - 1), entries[k - 1], g);
        if test(entries[k - 1]) {
            vstd::seq_lib::to_multiset_build(names, entries[k - 1].name);
        }
        assert(entries.take(k).filter(test).map_values(name_of()).to_multiset() =~= total(
            entries.take(k),
            g,
        ));
    }
}

/// The frame of a directory depends on which entries the directory has,
/// not on the order in which a listing returns them.
pub proof fn frame_ignores_listing_order(a: Seq<Listed>, b: Seq<Listed>, suffix: Seq<u8>)
    requires
        a.to_multiset() == b.to_multiset(),
    ensures
        frame_files(a, suffix) == frame_files(b, suffix),
        frame_dirs(a) == frame_dirs(b),
{
    name_order_is_total();
    assert(a.take(a.len() as int) =~= a);
    assert(b.take(b.len() as int) =~= b);
    let files = |e: Listed|
        if match_test(suffix)(e) {
            Multiset::singleton(e.name)
        } else {
            Multiset::empty()
        };
    selection_total(a, match_test(suffix), a.len() as int);
    selection_total(b, match_test(suffix), b.len() as int);
    total_permutation(a, b, files);
    matching_names(a, suffix).lemma_sort_by_ensures(name_order());
    sorted_is_unique(matching_names(b, suffix), frame_files(a, suffix));
    let dirs = |e: Listed|
        if subdirectory_test()(e) {
            Multiset::singleton(e.name)
        } else {
            Multiset::empty()
        };
    selection_total(a, subdirectory_test(), a.len() as int);
    selection_total(b, subdirectory_test(), b.len() as int);
    total_permutation(a, b, dirs);
    subdirectory_names(a).lemma_sort_by_ensures(name_order());
    sorted_is_unique(subdirectory_names(b), frame_dirs(a));
}

/// Every name in a selection is the name of a listed entry that passes the
/// test.
proof fn selected_names_pass(entries: Seq<Listed>, test: spec_fn(Listed) -> bool, name: Seq<u8>)
    requires
        sorted(entries.filter(test).map_values(name_of())).contains(name),
    ensures
        exists|i: int| 0 <= i < entries.len() && test(#[trigger] entries[i]) && entries[i].name == name,
{
    let kept = entries.filter(test);
    name_order_is_total();
    kept.map_values(name_of()).lemma_sort_by_ensures(name_order());
    assert(kept.map_values(name_of()).contains(name));
    let j = choose|j: int| 0 <= j < kept.len() && kept.map_values(name_of())[j] == name;
    entries.lemma_filter_pred(test, j);
    assert(kept.contains(kept[j]));
    entries.lemma_filter_contains_rev(test, kept[j]);
    let i = choose|i: int| 0 <= i < entries.len() && entries[i] == kept[j];
    assert(test(entries[i]) && entries[i].name == name);
}

/// No hidden name is ever published or descended into: the frame of a
/// directory holds the names of entries that are not hidden, files that
/// match among the files and directories among the directories.
pub proof fn frame_holds_no_hidden_name(entries: Seq<Listed>, suffix: Seq<u8>, name: Seq<u8>)
    ensures
        frame_files(entries, suffix).contains(name) ==> !is_hidden(name) && exists|i: int|
            0 <= i < entries.len() && is_match(#[trigger] entries[i], suffix) && entries[i].name
                == name,
        frame_dirs(entries).contains(name) ==> !is_hidden(name) && exists|i: int|
            0 <= i < entries.len() && is_subdirectory(#[trigger] entries[i]) && entries[i].name
                == name,
{
    if frame_files(entries, suffix).contains(name) {
        selected_names_pass(entries, match_test(suffix), name);
        let i = choose|i: int|
            0 <= i < entries.len() && match_test(suffix)(#[trigger] entries[i]) && entries[i].name
                == name;
        assert(is_match(entries[i], suffix));
    }
    if frame_dirs(entries).contains(name) {
        selected_names_pass(entries, subdirectory_test(), name);
        let i = choose|i: int|
            0 <= i < entries.len() && subdirectory_test()(#[trigger] entries[i])
                && entries[i].name == name;
        assert(is_subdirectory(entries[i]));
    }
}

/// An entry that fails a test leaves the selection as it is, wherever in
/// the listing it stands.
proof fn rejected_entry_is_not_selected(
    entries: Seq<Listed>,
    i: int,
    extra: Listed,
    test: spec_fn(Listed) -> bool,
)
    requires
        0 <= i <= entries.len(),
        !test(extra),
    ensures
        entries.insert(i, extra).filter(test) == entries.filter(test),
{
    let front = entries.take(i);
    let back = entries.skip(i);
    assert(entries.insert(i, extra) =~= front.push(extra) + back);
    assert(entries =~= front + back);
    front.lemma_filter_push(extra, test);
    Seq::filter_distributes_over_add(front.push(extra), back, test);
    Seq::filter_distributes_over_add(front, back, test);
}

/// Looking a directory up by name passes over entries of other names.
proof fn lookup_passes_other_names(nodes: Seq<Node>, i: int, extra: Node, name: Seq<u8>)
    requires
        0 <= i <= nodes.len(),
        extra.name@ != name,
    ensures
        subdirectory(nodes.insert(i, extra), name) == subdirectory(nodes, name),
    decreases i,
{
    let with = nodes.insert(i, extra);
    if i == 0 {
        assert(with.drop_first() =~= nodes);
    } else {
        assert(with[0] == nodes[0]);
        assert(with.drop_first() =~= nodes.drop_first().insert(i - 1, extra));
        lookup_passes_other_names(nodes.drop_first(), i - 1, extra, name);
    }
}

/// Subdirectories that are looked up alike publish alike.
proof fn below_is_unchanged(
    with: Snapshot,
    without: Snapshot,
    dir: Seq<u8>,
    suffix: Seq<u8>,
    names: Seq<Seq<u8>>,
)
    requires
        forall|k: int|
            0 <= k < names.len() ==> subdirectory(with.entries@, #[trigger] names[k])
                == subdirectory(without.entries@, names[k]),
    ensures
        emitted_below(with, dir, suffix, names) == emitted_below(without, dir, suffix, names),
    decreases names.len(),
{
    if names.len() > 0 {
        let tail = names.drop_first();
        assert forall|k: int| 0 <= k < tail.len() implies subdirectory(
            with.entries@,
            #[trigger] tail[k],
        ) == subdirectory(without.entries@, tail[k]) by {
            assert(tail[k] == names[k + 1]);
        }
        below_is_unchanged(with, without, dir, suffix, tail);
        assert(subdirectory(with.entries@, names[0]) == subdirectory(without.entries@, names[0]));
        assert(emitted_under(with, dir, suffix, names[0]) == emitted_under(
            without,
            dir,
            suffix,
            names[0],
        ));
    }
}

/// A hidden entry has no influence on what a walk publishes, whatever the
/// entry is and whatever lies below it: the walk of a directory with the
/// entry equals the walk of the directory without it.
pub proof fn hidden_entry_changes_nothing(
    with: Snapshot,
    without: Snapshot,
    i: int,
    dir: Seq<u8>,
    suffix: Seq<u8>,
)
    requires
        0 <= i < with.entries@.len(),
        is_hidden(with.entries@[i].name@),
        without.entries@ == with.entries@.remove(i),
    ensures
        emitted(with, dir, suffix) == emitted(without, dir, suffix),
{
    let extra = with.entries@[i];
    let nodes = without.entries@;
    assert(with.entries@ =~= nodes.insert(i, extra));
    let entries = listing(nodes);
    assert(listing(with.entries@) =~= entries.insert(i, listed(extra)));
    rejected_entry_is_not_selected(entries, i, listed(extra), match_test(suffix));
    rejected_entry_is_not_selected(entries, i, listed(extra), subdirectory_test());
    let names = frame_dirs(entries);
    assert forall|k: int| 0 <= k < names.len() implies subdirectory(
        with.entries@,
        #[trigger] names[k],
    ) == subdirectory(nodes, names[k]) by {
        assert(names.contains(names[k]));
        frame_holds_no_hidden_name(entries, suffix, names[k]);
        lookup_passes_other_names(nodes, i, extra, names[k]);
    }
    below_is_unchanged(with, without, dir, suffix, names);
}

/// Two directories hold the same entries, in whatever order each lists
/// them, and so does every pair of their subdirectories of one name.
pub open spec fn same_entries(a: Seq<Node>, b: Seq<Node>) -> bool
    decreases a,
{
    &&& listing(a).to_multiset() == listing(b).to_multiset()
    &&& forall|i: int, j: int|
        0 <= i < a.len() && 0 <= j < b.len() && (#[trigger] a[i]).name@ == (#[trigger] b[j]).name@
            ==> match (a[i].item, b[j].item) {
            (Item::Directory(x), Item::Directory(y)) => same_entries(x.entries@, y.entries@),
            _ => true,
        }
}

/// The place of the directory that a lookup by name finds.
proof fn found_at(nodes: Seq<Node>, name: Seq<u8>) -> (i: int)
    requires
        subdirectory(nodes, name) is Some,
    ensures
        0 <= i < nodes.len(),
        nodes[i].name@ == name,
        nodes[i].item == Item::Directory(subdirectory(nodes, name)->0),
    decreases nodes.len(),
{
    match nodes[0].item {
        Item::Directory(sub) if nodes[0].name@ == name => 0,
        _ => {
            let i = found_at(nodes.drop_first(), name);
            assert(nodes.drop_first()[i] == nodes[i + 1]);
            i + 1
        },
    }
}

/// The subdirectories `names` of two directories that hold the same
/// entries publish alike.
proof fn below_does_not_depend_on_order(
    a: Snapshot,
    b: Snapshot,
    dir: Seq<u8>,
    suffix: Seq<u8>,
    names: Seq<Seq<u8>>,
)
    requires
        same_entries(a.entries@, b.entries@),
        forall|k: int|
            0 <= k < names.len() ==> frame_dirs(listing(a.entries@)).contains(
                #[trigger] names[k],
            ),
    ensures
        emitted_below(a, dir, suffix, names) == emitted_below(b, dir, suffix, names),
    decreases weight(a.entries@), 0nat, names.len(),
{
    if names.len() > 0 {
        let name = names[0];
        let tail = names.drop_first();
        assert forall|k: int| 0 <= k < tail.len() implies frame_dirs(
            listing(a.entries@),
        ).contains(#[trigger] tail[k]) by {
            assert(tail[k] == names[k + 1]);
        }
        below_does_not_depend_on_order(a, b, dir, suffix, tail);
        frame_ignores_listing_order(listing(a.entries@), listing(b.entries@), suffix);
        scheduled_directories_exist(a.entries@, name);
        scheduled_directories_exist(b.entries@, name);
        let i = found_at(a.entries@, name);
        let j = found_at(b.entries@, name);
        let x = subdirectory(a.entries@, name)->0;
        let y = subdirectory(b.entries@, name)->0;
        assert(a.entries@[i].item == Item::Directory(x));
        assert(b.entries@[j].item == Item::Directory(y));
        assert(same_entries(x.entries@, y.entries@));
        subdirectory_is_lighter(a.entries@, name);
        listing_order_changes_nothing(x, y, joined(dir, name), suffix);
        assert(emitted_under(a, dir, suffix, name) == emitted_under(b, dir, suffix, name));
    }
}

/// What a walk publishes, and in which order, depends on what the tree
/// holds, not on the order in which its directories are listed: two trees
/// that hold the same entries at every level are walked alike.
pub proof fn listing_order_changes_nothing(a: Snapshot, b: Snapshot, dir: Seq<u8>, suffix: Seq<u8>)
    requires
        same_entries(a.entries@, b.entries@),
    ensures
        emitted(a, dir, suffix) == emitted(b, dir, suffix),
    decreases weight(a.entries@), 1nat, 0nat,
{
    frame_ignores_listing_order(listing(a.entries@), listing(b.entries@), suffix);
    below_does_not_depend_on_order(a, b, dir, suffix, frame_dirs(listing(a.entries@)));
}

} // verus!
