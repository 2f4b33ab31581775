//! What a walk publishes for a tree, and the walk of a tree held in
//! memory.

use vstd::prelude::*;
use crate::frame::{frame_dirs, is_subdirectory, name_of, subdirectory_names, subdirectory_test};
use crate::name::joined;
use crate::order::{name_order, name_order_is_total};
use crate::snapshot::{listed, listing, subdirectory, subdirectory_is_lighter, weight, Node, Snapshot};
use crate::survey::{paths_of, paths_of_published, survey};
use crate::views::pushed_name;
use crate::walker::level_files;
use vstd::slice::slice_to_vec;

verus! {

/// The paths that a walk of `tree`, found at the path `dir`, publishes, in
/// the order published: first the matching files of the directory itself,
/// ascending by name, then what each of its subdirectories publishes,
/// ascending by name.
pub open spec fn emitted(tree: Snapshot, dir: Seq<u8>, suffix: Seq<u8>) -> Seq<Seq<u8>>
    decreases weight(tree.entries@), 1nat, 0nat,
{
    level_files(listing(tree.entries@), dir, suffix) + emitted_below(
        tree,
        dir,
        suffix,
        frame_dirs(listing(tree.entries@)),
    )
}

/// What the subdirectories `names` of `tree` publish, one after the other.
pub open spec fn emitted_below(
    tree: Snapshot,
    dir: Seq<u8>,
    suffix: Seq<u8>,
    names: Seq<Seq<u8>>,
) -> Seq<Seq<u8>>
    decreases weight(tree.entries@), 0nat, names.len(),
{
    if names.len() == 0 {
        Seq::empty()
    } else {
        emitted_under(tree, dir, suffix, names[0]) + emitted_below(
            tree,
            dir,
            suffix,
            names.drop_first(),
        )
    }
}

/// What the subdirectory `name` of `tree` publishes.
pub open spec fn emitted_under(
    tree: Snapshot,
    dir: Seq<u8>,
    suffix: Seq<u8>,
    name: Seq<u8>,
) -> Seq<Seq<u8>>
    decreases weight(tree.entries@), 0nat, 0nat,
{
    match subdirectory(tree.entries@, name) {
        Some(sub) => {
            proof {
                subdirectory_is_lighter(tree.entries@, name);
            }
            emitted(sub, joined(dir, name), suffix)
        },
        None => Seq::empty(),
    }
}

/// The number of directories that a walk of `tree` lists, `tree` included.
pub open spec fn visits(tree: Snapshot) -> nat
    decreases weight(tree.entries@), 1nat, 0nat,
{
    1 + visits_below(tree, frame_dirs(listing(tree.entries@)))
}

/// The number of directories listed in the subdirectories `names` of
/// `tree`.
pub open spec fn visits_below(tree: Snapshot, names: Seq<Seq<u8>>) -> nat
    decreases weight(tree.entries@), 0nat, names.len(),
{
    if names.len() == 0 {
        0
    } else {
        visits_under(tree, names[0]) + visits_below(tree, names.drop_first())
    }
}

/// The number of directories listed in the subdirectory `name` of `tree`.
pub open spec fn visits_under(tree: Snapshot, name: Seq<u8>) -> nat
    decreases weight(tree.entries@), 0nat, 0nat,
{
    match subdirectory(tree.entries@, name) {
        Some(sub) => {
            proof {
                subdirectory_is_lighter(tree.entries@, name);
            }
            visits(sub)
        },
        None => 0,
    }
}

/// A directory entry called `name` among `nodes` is found by that name.
proof fn listed_directory_is_found(nodes: Seq<Node>, i: int, name: Seq<u8>)
    requires
        0 <= i < nodes.len(),
        nodes[i].name@ == name,
        nodes[i].item is Directory,
    ensures
        subdirectory(nodes, name) is Some,
    decreases nodes.len(),
{
    if i > 0 {
        listed_directory_is_found(nodes.drop_first(), i - 1, name);
    }
}

/// Every name that a level schedules is the name of one of its
/// directories.
pub proof fn scheduled_directories_exist(nodes: Seq<Node>, name: Seq<u8>)
    requires
        frame_dirs(listing(nodes)).contains(name),
    ensures
        subdirectory(nodes, name) is Some,
        !crate::name::is_hidden(name),
{
    let entries = listing(nodes);
    let kept = entries.filter(subdirectory_test());
    name_order_is_total();
    subdirectory_names(entries).lemma_sort_by_ensures(name_order());
    assert(subdirectory_names(entries).contains(name));
    let j = choose|j: int| 0 <= j < kept.len() && kept.map_values(name_of())[j] == name;
    entries.lemma_filter_pred(subdirectory_test(), j);
    assert(kept.contains(kept[j]));
    entries.lemma_filter_contains_rev(subdirectory_test(), kept[j]);
    let i = choose|i: int| 0 <= i < entries.len() && entries[i] == kept[j];
    assert(entries[i] == listed(nodes[i]));
    assert(is_subdirectory(kept[j]));
    listed_directory_is_found(nodes, i, name);
}

/// Walks a tree held in memory, found at the path `root`, and returns the
/// paths published, in the order published.
pub fn walk(tree: &Snapshot, root: &[u8], suffix: &[u8]) -> (paths: Vec<Vec<u8>>)
    ensures
        paths.deep_view() == emitted(*tree, root@, suffix@),
{
    let jobs = survey(tree, root, suffix);
    let mut paths: Vec<Vec<u8>> = Vec::new();
    let mut i: usize = 0;
    proof {
        paths_of_published(*tree, root@, suffix@);
        assert(paths.deep_view() =~= paths_of(jobs.deep_view()).take(0));
    }
    while i < jobs.len()
        invariant
            i <= jobs.len(),
            paths.deep_view() == paths_of(jobs.deep_view()).take(i as int),
        decreases jobs.len() - i,
    {
        let ghost before = paths;
        let path = slice_to_vec(jobs[i].path.as_slice());
        paths.push(path);
        proof {
            pushed_name(before, paths, path);
            assert(jobs.deep_view()[i as int].path == jobs[i as int].path@);
            assert(paths_of(jobs.deep_view()).take(i + 1) =~= paths_of(jobs.deep_view()).take(
                i as int,
            ).push(path@));
        }
        i += 1;
    }
    proof {
        assert(paths_of(jobs.deep_view()).take(i as int) =~= paths_of(jobs.deep_view()));
    }
    paths
}

} // verus!
