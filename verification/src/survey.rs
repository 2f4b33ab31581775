//! The survey of a tree held in memory: every file that a walk publishes,
//! in the order published, with what reading it yields.

use vstd::prelude::*;
use vstd::slice::slice_to_vec;
use crate::frame::{frame, frame_dirs, frame_files};
use crate::name::joined;
use crate::snapshot::{listing, reading, subdirectory, subdirectory_is_lighter, weight, Node, Snapshot};
use crate::walk::{
    emitted, emitted_below, emitted_under, scheduled_directories_exist, visits, visits_below,
    visits_under,
};
use crate::views::name_at;
use crate::walker::{level_files, paths_in, Walker};

verus! {

/// A published file: its path, and its bytes or `None` where it cannot be
/// read.
#[derive(Debug)]
pub struct Job {
    pub path: Vec<u8>,
    pub content: Option<Vec<u8>>,
}

/// A published file as a value.
pub struct JobSpec {
    pub path: Seq<u8>,
    pub content: Option<Seq<u8>>,
}

impl DeepView for Job {
    type V = JobSpec;

    open spec fn deep_view(&self) -> JobSpec {
        JobSpec {
            path: self.path@,
            content: match self.content {
                Some(bytes) => Some(bytes@),
                None => None,
            },
        }
    }
}

/// The job for the file called `name` in the directory `dir`, whose
/// entries are `nodes`.
pub open spec fn job_for(nodes: Seq<Node>, dir: Seq<u8>) -> spec_fn(Seq<u8>) -> JobSpec {
    |name: Seq<u8>| JobSpec { path: joined(dir, name), content: reading(nodes, name) }
}

/// The jobs for the matching files of one directory, in the order
/// published.
pub open spec fn level_jobs(nodes: Seq<Node>, dir: Seq<u8>, suffix: Seq<u8>) -> Seq<JobSpec> {
    frame_files(listing(nodes), suffix).map_values(job_for(nodes, dir))
}

/// The jobs that a walk of `tree`, found at the path `dir`, publishes, in
/// the order published.
pub open spec fn published(tree: Snapshot, dir: Seq<u8>, suffix: Seq<u8>) -> Seq<JobSpec>
    decreases weight(tree.entries@), 1nat, 0nat,
{
    level_jobs(tree.entries@, dir, suffix) + published_below(
        tree,
        dir,
        suffix,
        frame_dirs(listing(tree.entries@)),
    )
}

/// The jobs published in the subdirectories `names` of `tree`, one
/// subdirectory after the other.
pub open spec fn published_below(
    tree: Snapshot,
    dir: Seq<u8>,
    suffix: Seq<u8>,
    names: Seq<Seq<u8>>,
) -> Seq<JobSpec>
    decreases weight(tree.entries@), 0nat, names.len(),
{
    if names.len() == 0 {
        Seq::empty()
    } else {
        published_under(tree, dir, suffix, names[0]) + published_below(
            tree,
            dir,
            suffix,
            names.drop_first(),
        )
    }
}

/// The jobs published in the subdirectory `name` of `tree`.
pub open spec fn published_under(
    tree: Snapshot,
    dir: Seq<u8>,
    suffix: Seq<u8>,
    name: Seq<u8>,
) -> Seq<JobSpec>
    decreases weight(tree.entries@), 0nat, 0nat,
{
    match subdirectory(tree.entries@, name) {
        Some(sub) => {
            proof {
                subdirectory_is_lighter(tree.entries@, name);
            }
            published(sub, joined(dir, name), suffix)
        },
        None => Seq::empty(),
    }
}

/// The paths of a sequence of jobs.
pub open spec fn paths_of(jobs: Seq<JobSpec>) -> Seq<Seq<u8>> {
    jobs.map_values(|j: JobSpec| j.path)
}

/// The paths of the jobs published below a directory are the paths
/// published below it.
proof fn paths_of_below(tree: Snapshot, dir: Seq<u8>, suffix: Seq<u8>, names: Seq<Seq<u8>>)
    ensures
        paths_of(published_below(tree, dir, suffix, names)) == emitted_below(
            tree,
            dir,
            suffix,
            names,
        ),
    decreases weight(tree.entries@), 0nat, names.len(),
{
    if names.len() == 0 {
        assert(paths_of(published_below(tree, dir, suffix, names)) =~= Seq::<Seq<u8>>::empty());
    } else {
        let first = published_under(tree, dir, suffix, names[0]);
        let others = published_below(tree, dir, suffix, names.drop_first());
        match subdirectory(tree.entries@, names[0]) {
            Some(sub) => {
                subdirectory_is_lighter(tree.entries@, names[0]);
                paths_of_published(sub, joined(dir, names[0]), suffix);
            },
            None => {
                assert(paths_of(first) =~= Seq::<Seq<u8>>::empty());
            },
        }
        assert(paths_of(first) == emitted_under(tree, dir, suffix, names[0]));
        paths_of_below(tree, dir, suffix, names.drop_first());
        assert(paths_of(first + others) =~= paths_of(first) + paths_of(others));
    }
}

/// The paths of the jobs that a walk publishes are the paths that it
/// publishes.
pub proof fn paths_of_published(tree: Snapshot, dir: Seq<u8>, suffix: Seq<u8>)
    ensures
        paths_of(published(tree, dir, suffix)) == emitted(tree, dir, suffix),
    decreases weight(tree.entries@), 1nat, 0nat,
{
    let nodes = tree.entries@;
    let here = level_jobs(nodes, dir, suffix);
    let below = published_below(tree, dir, suffix, frame_dirs(listing(nodes)));
    paths_of_below(tree, dir, suffix, frame_dirs(listing(nodes)));
    assert(paths_of(here) =~= level_files(listing(nodes), dir, suffix));
    assert(paths_of(here + below) =~= paths_of(here) + paths_of(below));
}

/// What is still to be published when the directories `trees` wait to be
/// listed under the paths `paths`, the last of them first.
pub open spec fn remaining(paths: Seq<Seq<u8>>, trees: Seq<&Snapshot>, suffix: Seq<u8>) -> Seq<
    JobSpec,
>
    decreases paths.len(),
{
    if paths.len() == 0 || trees.len() == 0 {
        Seq::empty()
    } else {
        published(*trees.last(), paths.last(), suffix) + remaining(
            paths.drop_last(),
            trees.drop_last(),
            suffix,
        )
    }
}

/// The number of listings still to come when the directories `trees` wait
/// to be listed.
pub open spec fn outstanding(trees: Seq<&Snapshot>) -> nat
    decreases trees.len(),
{
    if trees.len() == 0 {
        0
    } else {
        visits(*trees.last()) + outstanding(trees.drop_last())
    }
}

/// Scheduling the subdirectories `names` of `tree` on top of what waits
/// puts what they publish in front of what was still to be published.
proof fn scheduling_children(
    paths: Seq<Seq<u8>>,
    trees: Seq<&Snapshot>,
    tree: Snapshot,
    dir: Seq<u8>,
    suffix: Seq<u8>,
    names: Seq<Seq<u8>>,
    children: Seq<&Snapshot>,
)
    requires
        paths.len() == trees.len(),
        children.len() == names.len(),
        forall|k: int|
            0 <= k < names.len() ==> subdirectory(tree.entries@, #[trigger] names[k]) == Some(
                *children[k],
            ),
    ensures
        remaining(paths + paths_in(dir, names).reverse(), trees + children.reverse(), suffix)
            == published_below(tree, dir, suffix, names) + remaining(paths, trees, suffix),
        outstanding(trees + children.reverse()) == visits_below(tree, names) + outstanding(
            trees,
        ),
    decreases names.len(),
{
    if names.len() == 0 {
        assert(paths + paths_in(dir, names).reverse() =~= paths);
        assert(trees + children.reverse() =~= trees);
        assert(published_below(tree, dir, suffix, names) + remaining(paths, trees, suffix)
            =~= remaining(paths, trees, suffix));
    } else {
        let tail = names.drop_first();
        let later = children.drop_first();
        let stack = paths + paths_in(dir, names).reverse();
        let waiting = trees + children.reverse();
        assert forall|k: int| 0 <= k < tail.len() implies subdirectory(
            tree.entries@,
            #[trigger] tail[k],
        ) == Some(*later[k]) by {
            assert(tail[k] == names[k + 1]);
        }
        scheduling_children(paths, trees, tree, dir, suffix, tail, later);
        assert(stack.drop_last() =~= paths + paths_in(dir, tail).reverse());
        assert(waiting.drop_last() =~= trees + later.reverse());
        assert(stack.last() == joined(dir, names[0]));
        assert(waiting.last() == children[0]);
        assert(subdirectory(tree.entries@, names[0]) == Some(*children[0]));
        let first = published(*children[0], joined(dir, names[0]), suffix);
        assert(published_under(tree, dir, suffix, names[0]) == first);
        assert(published_below(tree, dir, suffix, names) == first + published_below(
            tree,
            dir,
            suffix,
            tail,
        ));
        assert(remaining(stack, waiting, suffix) == first + remaining(
            stack.drop_last(),
            waiting.drop_last(),
            suffix,
        ));
        assert(remaining(stack, waiting, suffix) =~= published_below(tree, dir, suffix, names)
            + remaining(paths, trees, suffix));
        assert(visits_under(tree, names[0]) == visits(*children[0]));
        assert(visits_below(tree, names) == visits(*children[0]) + visits_below(tree, tail));
        assert(outstanding(waiting) == visits(*children[0]) + outstanding(
            waiting.drop_last(),
        ));
    }
}

/// Walks a tree held in memory, found at the path `root`, by driving a
/// walker over it, and returns the published files in the order
/// published, each with what reading it yields.
pub fn survey(tree: &Snapshot, root: &[u8], suffix: &[u8]) -> (jobs: Vec<Job>)
    ensures
        jobs.deep_view() == published(*tree, root@, suffix@),
{
    let mut walker = Walker::new(root, suffix);
    let mut trees: Vec<&Snapshot> = Vec::new();
    trees.push(tree);
    let mut out: Vec<Job> = Vec::new();
    proof {
        let whole = published(*tree, root@, suffix@);
        let stack = walker@.pending;
        assert(stack.last() == root@);
        assert(*trees@.last() == *tree);
        assert(stack.drop_last().len() == 0);
        assert(remaining(stack.drop_last(), trees@.drop_last(), suffix@)
            =~= Seq::<JobSpec>::empty());
        assert(remaining(stack, trees@, suffix@) == whole + remaining(
            stack.drop_last(),
            trees@.drop_last(),
            suffix@,
        ));
        assert(remaining(walker@.pending, trees@, suffix@) =~= whole);
        assert(out.deep_view() =~= Seq::<JobSpec>::empty());
        assert(out.deep_view() + remaining(walker@.pending, trees@, suffix@) =~= whole);
    }
    while !walker.is_done()
        invariant
            walker@.suffix == suffix@,
            walker@.pending.len() == trees@.len(),
            out.deep_view() + remaining(walker@.pending, trees@, suffix@) == published(
                *tree,
                root@,
                suffix@,
            ),
        decreases outstanding(trees@),
    {
        let ghost stack = walker@.pending;
        let ghost waiting = trees@;
        let ghost out_before = out.deep_view();
        let dir = walker.next_directory().unwrap();
        let here = trees.pop().unwrap();
        let entries = here.list();
        let files = walker.visit(dir.as_slice(), &entries);
        let level = frame(&entries, suffix);
        let ghost file_names = level.files.deep_view();
        let ghost found = level_jobs(here.entries@, dir@, suffix@);
        let mut i: usize = 0;
        proof {
            assert(found.take(0) =~= Seq::<JobSpec>::empty());
            assert(out.deep_view() =~= out_before + found.take(0));
            assert(files.deep_view().len() == file_names.len());
        }
        while i < level.files.len()
            invariant
                i <= level.files.len(),
                files.len() == level.files.len(),
                file_names == level.files.deep_view(),
                file_names == frame_files(listing(here.entries@), suffix@),
                files.deep_view() == paths_in(dir@, file_names),
                found == level_jobs(here.entries@, dir@, suffix@),
                out.deep_view() == out_before + found.take(i as int),
            decreases level.files.len() - i,
        {
            let ghost before = out;
            let job = Job {
                path: slice_to_vec(files[i].as_slice()),
                content: here.read(level.files[i].as_slice()),
            };
            proof {
                name_at(level.files, i as int);
                name_at(files, i as int);
                assert(job.deep_view() == found[i as int]);
            }
            out.push(job);
            proof {
                assert(out.deep_view() =~= before.deep_view().push(job.deep_view()));
                assert(found.take(i + 1) =~= found.take(i as int).push(found[i as int]));
                assert(out.deep_view() =~= out_before + found.take(i + 1));
            }
            i += 1;
        }
        let ghost names = level.dirs.deep_view();
        let ghost children: Seq<&Snapshot> = Seq::new(
            names.len(),
            |k: int| &subdirectory(here.entries@, names[k])->0,
        );
        let ghost rest_trees = waiting.drop_last();
        let mut k: usize = level.dirs.len();
        proof {
            assert(found.take(i as int) =~= found);
            assert(trees@ =~= rest_trees + children.reverse().take(0));
        }
        while k > 0
            invariant
                k <= level.dirs.len(),
                names == level.dirs.deep_view(),
                names == frame_dirs(listing(here.entries@)),
                children.len() == names.len(),
                forall|j: int|
                    0 <= j < names.len() ==> #[trigger] children[j] == &subdirectory(
                        here.entries@,
                        names[j],
                    )->0,
                trees@ == rest_trees + children.reverse().take(level.dirs.len() - k),
            decreases k,
        {
            k -= 1;
            proof {
                name_at(level.dirs, k as int);
                assert(names.contains(names[k as int]));
                scheduled_directories_exist(here.entries@, names[k as int]);
            }
            let child = here.find_directory(level.dirs[k].as_slice()).unwrap();
            trees.push(child);
            proof {
                let done = level.dirs.len() - k - 1;
                assert(children.reverse()[done] == children[k as int]);
                assert(children.reverse().take(done + 1) =~= children.reverse().take(done).push(
                    child,
                ));
                assert(trees@ =~= rest_trees + children.reverse().take(done + 1));
            }
        }
        proof {
            assert(children.reverse().take(level.dirs.len() as int) =~= children.reverse());
            assert forall|j: int| 0 <= j < names.len() implies subdirectory(
                here.entries@,
                #[trigger] names[j],
            ) == Some(*children[j]) by {
                assert(names.contains(names[j]));
                scheduled_directories_exist(here.entries@, names[j]);
            }
            let rest_paths = stack.drop_last();
            scheduling_children(rest_paths, rest_trees, *here, dir@, suffix@, names, children);
            let below = published_below(*here, dir@, suffix@, names);
            let later = remaining(rest_paths, rest_trees, suffix@);
            assert(remaining(stack, waiting, suffix@) == published(*here, dir@, suffix@)
                + later);
            assert(published(*here, dir@, suffix@) == found + below);
            assert(remaining(walker@.pending, trees@, suffix@) == below + later);
            assert(out.deep_view() + (below + later) =~= out_before + ((found + below)
                + later));
            assert(outstanding(waiting) == visits(*here) + outstanding(rest_trees));
        }
    }
    proof {
        assert(remaining(walker@.pending, trees@, suffix@) =~= Seq::<JobSpec>::empty());
        assert(out.deep_view() + Seq::<JobSpec>::empty() =~= out.deep_view());
    }
    out
}

} // verus!
