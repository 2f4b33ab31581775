//! The walker: a depth-first enumeration of a directory tree, driven one
//! directory listing at a time.
//!
//! The walker never lists a directory itself. It hands out the path of the
//! next directory to list, takes the listing back, and answers with the
//! paths to publish. Whoever drives it performs the listing and the
//! publishing, and stops at the first failure of either.

use vstd::prelude::*;
use vstd::slice::slice_to_vec;
use crate::frame::{frame, frame_dirs, frame_files, DirEntry, Listed};
use crate::name::{join, joined};
use crate::views::{bytes_as_value, name_at, popped_name, pushed_name};

verus! {

/// The paths of the entries `names` of the directory `dir`, in order.
pub open spec fn paths_in(dir: Seq<u8>, names: Seq<Seq<u8>>) -> Seq<Seq<u8>> {
    names.map_values(|n: Seq<u8>| joined(dir, n))
}

/// The paths published for one directory, in the order published.
pub open spec fn level_files(entries: Seq<Listed>, dir: Seq<u8>, suffix: Seq<u8>) -> Seq<Seq<u8>> {
    paths_in(dir, frame_files(entries, suffix))
}

/// The paths of the subdirectories of one directory, in the order visited.
pub open spec fn level_dirs(entries: Seq<Listed>, dir: Seq<u8>) -> Seq<Seq<u8>> {
    paths_in(dir, frame_dirs(entries))
}

/// The state of a walk as a value.
pub struct WalkerState {
    /// The suffix that published names end with.
    pub suffix: Seq<u8>,
    /// The directories still to be listed; the last one is listed next.
    pub pending: Seq<Seq<u8>>,
}

/// A walk in progress.
#[derive(Debug)]
pub struct Walker {
    suffix: Vec<u8>,
    pending: Vec<Vec<u8>>,
}

impl View for Walker {
    type V = WalkerState;

    closed spec fn view(&self) -> WalkerState {
        WalkerState { suffix: self.suffix@, pending: self.pending.deep_view() }
    }
}

impl Walker {
    /// Starts a walk at `root`, publishing the files whose names end with
    /// `suffix`.
    pub fn new(root: &[u8], suffix: &[u8]) -> (w: Walker)
        ensures
            w@ == (WalkerState { suffix: suffix@, pending: seq![root@] }),
    {
        let mut pending: Vec<Vec<u8>> = Vec::new();
        let first = slice_to_vec(root);
        pending.push(first);
        let w = Walker { suffix: slice_to_vec(suffix), pending };
        proof {
            bytes_as_value(first);
            assert(w.pending.deep_view() =~= seq![root@]);
        }
        w
    }

    /// Tells whether every directory has been listed.
    pub fn is_done(&self) -> (done: bool)
        ensures
            done == (self@.pending.len() == 0),
    {
        self.pending.len() == 0
    }

    /// Takes the next directory to list off the walk, if one is left.
    pub fn next_directory(&mut self) -> (next: Option<Vec<u8>>)
        ensures
            old(self)@.pending.len() == 0 ==> next is None && final(self)@ == old(self)@,
            old(self)@.pending.len() > 0 ==> next is Some && next->0@ == old(self)@.pending.last()
                && final(self)@ == (WalkerState {
                suffix: old(self)@.suffix,
                pending: old(self)@.pending.drop_last(),
            }),
    {
        let ghost before = self.pending;
        let next = self.pending.pop();
        proof {
            if before@.len() > 0 {
                popped_name(before, self.pending);
            }
        }
        next
    }

    /// Takes the listing of the directory `dir`. Returns the paths to
    /// publish, in order, and schedules the subdirectories of `dir` so that
    /// they are listed next, in ascending order of their names, each with
    /// all that lies below it before the one after it.
    pub fn visit(&mut self, dir: &[u8], entries: &Vec<DirEntry>) -> (files: Vec<Vec<u8>>)
        ensures
            files.deep_view() == level_files(entries.deep_view(), dir@, old(self)@.suffix),
            final(self)@ == (WalkerState {
                suffix: old(self)@.suffix,
                pending: old(self)@.pending + level_dirs(entries.deep_view(), dir@).reverse(),
            }),
    {
        let level = frame(entries, self.suffix.as_slice());
        let ghost file_paths = level_files(entries.deep_view(), dir@, self.suffix@);
        let ghost dir_paths = level_dirs(entries.deep_view(), dir@);
        let ghost pending_before = self.pending.deep_view();
        let mut files: Vec<Vec<u8>> = Vec::new();
        let mut i: usize = 0;
        proof {
            assert(files.deep_view() =~= file_paths.take(0));
        }
        while i < level.files.len()
            invariant
                i <= level.files.len(),
                level.files.deep_view().len() == file_paths.len(),
                file_paths == paths_in(dir@, level.files.deep_view()),
                files.deep_view() == file_paths.take(i as int),
            decreases level.files.len() - i,
        {
            let ghost files_before = files;
            let path = join(dir, level.files[i].as_slice());
            files.push(path);
            proof {
                pushed_name(files_before, files, path);
                name_at(level.files, i as int);
                assert(file_paths.take(i + 1) =~= file_paths.take(i as int).push(path@));
            }
            i += 1;
        }
        let mut k: usize = level.dirs.len();
        proof {
            assert(file_paths.take(i as int) =~= file_paths);
            assert(self.pending.deep_view() =~= pending_before + dir_paths.reverse().take(0));
        }
        while k > 0
            invariant
                k <= level.dirs.len(),
                level.dirs.deep_view().len() == dir_paths.len(),
                dir_paths == paths_in(dir@, level.dirs.deep_view()),
                self.pending.deep_view() == pending_before + dir_paths.reverse().take(
                    level.dirs.len() - k,
                ),
                self.suffix == old(self).suffix,
            decreases k,
        {
            k -= 1;
            let ghost stack_before = self.pending;
            let path = join(dir, level.dirs[k].as_slice());
            self.pending.push(path);
            proof {
                pushed_name(stack_before, self.pending, path);
                name_at(level.dirs, k as int);
                let done = level.dirs.len() - k - 1;
                assert(dir_paths.reverse()[done] == path@);
                assert(dir_paths.reverse().take(done + 1) =~= dir_paths.reverse().take(done).push(
                    path@,
                ));
                assert(self.pending.deep_view() =~= pending_before + dir_paths.reverse().take(
                    done + 1,
                ));
            }
        }
        proof {
            assert(dir_paths.reverse().take(level.dirs.len() as int) =~= dir_paths.reverse());
        }
        files
    }
}

} // verus!
