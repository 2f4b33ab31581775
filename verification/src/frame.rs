//! One level of a directory: its entries classified, filtered and ordered.

use vstd::prelude::*;
use vstd::slice::slice_to_vec;
use crate::name::{ends_with, has_suffix, hidden, is_hidden};
use crate::order::{sort_names, sorted};
use crate::views::pushed_name;

verus! {

/// What a directory entry is, as far as the walk cares.
#[derive(Clone, Copy, Debug, PartialEq, Eq, Structural)]
pub enum EntryKind {
    /// A directory, to be listed in turn.
    Directory,
    /// A regular file.
    File,
    /// Anything else: neither listed nor matched.
    Other,
}

/// One entry of a directory listing.
#[derive(Debug)]
pub struct DirEntry {
    /// The name of the entry, as the bytes that the file system holds.
    pub name: Vec<u8>,
    /// What the entry is.
    pub kind: EntryKind,
}

/// A directory entry as a value: its name and its kind.
pub struct Listed {
    pub name: Seq<u8>,
    pub kind: EntryKind,
}

impl DeepView for DirEntry {
    type V = Listed;

    open spec fn deep_view(&self) -> Listed {
        Listed { name: self.name@, kind: self.kind }
    }
}

/// The entries of a level that the walk descends into: directories that
/// are not hidden.
pub open spec fn is_subdirectory(e: Listed) -> bool {
    e.kind == EntryKind::Directory && !is_hidden(e.name)
}

/// The entries of a level that the walk publishes: regular files that are
/// not hidden and whose name ends with the suffix.
pub open spec fn is_match(e: Listed, suffix: Seq<u8>) -> bool {
    e.kind == EntryKind::File && !is_hidden(e.name) && has_suffix(e.name, suffix)
}

/// The test for a subdirectory, as a function.
pub open spec fn subdirectory_test() -> spec_fn(Listed) -> bool {
    |e: Listed| is_subdirectory(e)
}

/// The test for a matching file, as a function.
pub open spec fn match_test(suffix: Seq<u8>) -> spec_fn(Listed) -> bool {
    |e: Listed| is_match(e, suffix)
}

/// The name of an entry, as a function.
pub open spec fn name_of() -> spec_fn(Listed) -> Seq<u8> {
    |e: Listed| e.name
}

/// The names of the matching files of a listing, in the order listed.
pub open spec fn matching_names(entries: Seq<Listed>, suffix: Seq<u8>) -> Seq<Seq<u8>> {
    entries.filter(match_test(suffix)).map_values(name_of())
}

/// The names of the subdirectories of a listing, in the order listed.
pub open spec fn subdirectory_names(entries: Seq<Listed>) -> Seq<Seq<u8>> {
    entries.filter(subdirectory_test()).map_values(name_of())
}

/// The matching file names of a level, in the order in which they are
/// published.
pub open spec fn frame_files(entries: Seq<Listed>, suffix: Seq<u8>) -> Seq<Seq<u8>> {
    sorted(matching_names(entries, suffix))
}

/// The subdirectory names of a level, in the order in which they are
/// visited.
pub open spec fn frame_dirs(entries: Seq<Listed>) -> Seq<Seq<u8>> {
    sorted(subdirectory_names(entries))
}

/// The two ordered name lists of one level of the walk.
#[derive(Debug)]
pub struct DirectoryFrame {
    /// Names of the subdirectories, ascending.
    pub dirs: Vec<Vec<u8>>,
    /// Names of the matching files, ascending.
    pub files: Vec<Vec<u8>>,
}

/// Selecting names from one more entry of a listing adds the name of that
/// entry where it passes the test, and nothing otherwise.
pub proof fn selection_step(entries: Seq<Listed>, i: int, test: spec_fn(Listed) -> bool)
    requires
        0 <= i < entries.len(),
    ensures
        entries.take(i + 1).filter(test).map_values(name_of()) == if test(entries[i]) {
            entries.take(i).filter(test).map_values(name_of()).push(entries[i].name)
        } else {
            entries.take(i).filter(test).map_values(name_of())
        },
{
    let before = entries.take(i);
    assert(entries.take(i + 1) =~= before.push(entries[i]));
    before.lemma_filter_push(entries[i], test);
    if test(entries[i]) {
        before.filter(test).lemma_push_map_commute(name_of(), entries[i]);
    }
}

/// Classifies the entries of one directory: hidden entries are dropped,
/// directories and matching files are kept apart, and each list is sorted.
pub fn frame(entries: &Vec<DirEntry>, suffix: &[u8]) -> (f: DirectoryFrame)
    ensures
        f.files.deep_view() == frame_files(entries.deep_view(), suffix@),
        f.dirs.deep_view() == frame_dirs(entries.deep_view()),
{
    let ghost listed = entries.deep_view();
    let mut dirs: Vec<Vec<u8>> = Vec::new();
    let mut files: Vec<Vec<u8>> = Vec::new();
    let mut i: usize = 0;
    proof {
        assert(listed.take(0) =~= Seq::<Listed>::empty());
        assert(listed.take(0).filter(subdirectory_test()) =~= Seq::<Listed>::empty()) by {
            reveal(Seq::filter);
        }
        assert(listed.take(0).filter(match_test(suffix@)) =~= Seq::<Listed>::empty()) by {
            reveal(Seq::filter);
        }
        assert(dirs.deep_view() =~= subdirectory_names(listed.take(0)));
        assert(files.deep_view() =~= matching_names(listed.take(0), suffix@));
    }
    while i < entries.len()
        invariant
            i <= entries.len(),
            listed == entries.deep_view(),
            dirs.deep_view() == subdirectory_names(listed.take(i as int)),
            files.deep_view() == matching_names(listed.take(i as int), suffix@),
        decreases entries.len() - i,
    {
        let entry = &entries[i];
        let ghost dirs_before = dirs;
        let ghost files_before = files;
        proof {
            assert(listed[i as int] == entry.deep_view());
            selection_step(listed, i as int, subdirectory_test());
            selection_step(listed, i as int, match_test(suffix@));
        }
        if !hidden(entry.name.as_slice()) {
            if entry.kind == EntryKind::Directory {
                let name = slice_to_vec(entry.name.as_slice());
                dirs.push(name);
                proof {
                    pushed_name(dirs_before, dirs, name);
                }
            } else if entry.kind == EntryKind::File && ends_with(entry.name.as_slice(), suffix) {
                let name = slice_to_vec(entry.name.as_slice());
                files.push(name);
                proof {
                    pushed_name(files_before, files, name);
                }
            }
        }
        i += 1;
    }
    proof {
        assert(listed.take(i as int) =~= listed);
    }
    DirectoryFrame { dirs: sort_names(dirs), files: sort_names(files) }
}

} // verus!
