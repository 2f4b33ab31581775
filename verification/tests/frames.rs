use flatdir::frame::{frame, DirEntry, EntryKind};
use flatdir::order::sort_names;

fn entry(name: &[u8], kind: EntryKind) -> DirEntry {
    DirEntry { name: name.to_vec(), kind }
}

fn names(list: &[&[u8]]) -> Vec<Vec<u8>> {
    list.iter().map(|n| n.to_vec()).collect()
}

#[test]
fn sort_is_bytewise() {
    let sorted = sort_names(names(&[b"b", b"a", b"B", b"ab", b"", b"a"]));
    assert_eq!(sorted, names(&[b"", b"B", b"a", b"a", b"ab", b"b"]));
}

#[test]
fn sort_of_nothing_is_nothing() {
    assert_eq!(sort_names(Vec::new()), Vec::<Vec<u8>>::new());
}

#[test]
fn sort_orders_high_bytes_last() {
    let sorted = sort_names(names(&[b"\xff", b"z", b"\x80"]));
    assert_eq!(sorted, names(&[b"z", b"\x80", b"\xff"]));
}

#[test]
fn frame_separates_and_sorts() {
    let entries = vec![
        entry(b"zeta.txt", EntryKind::File),
        entry(b"src", EntryKind::Directory),
        entry(b"alpha.txt", EntryKind::File),
        entry(b"notes.md", EntryKind::File),
        entry(b"doc", EntryKind::Directory),
        entry(b"link.txt", EntryKind::Other),
    ];
    let f = frame(&entries, b".txt");
    assert_eq!(f.files, names(&[b"alpha.txt", b"zeta.txt"]));
    assert_eq!(f.dirs, names(&[b"doc", b"src"]));
}

#[test]
fn frame_drops_hidden_entries() {
    let entries = vec![
        entry(b".git", EntryKind::Directory),
        entry(b".secret.txt", EntryKind::File),
        entry(b"a.txt", EntryKind::File),
    ];
    let f = frame(&entries, b".txt");
    assert_eq!(f.files, names(&[b"a.txt"]));
    assert!(f.dirs.is_empty());
}

#[test]
fn frame_does_not_test_directories_against_the_suffix() {
    let entries = vec![entry(b"old.txt", EntryKind::Directory), entry(b"x", EntryKind::Directory)];
    let f = frame(&entries, b".txt");
    assert!(f.files.is_empty());
    assert_eq!(f.dirs, names(&[b"old.txt", b"x"]));
}

#[test]
fn frame_matches_a_bare_letter_suffix() {
    let entries = vec![entry(b"index.js", EntryKind::File), entry(b"index.ts", EntryKind::File)];
    let f = frame(&entries, b"s");
    assert_eq!(f.files, names(&[b"index.js", b"index.ts"]));
}

#[test]
fn frame_is_the_same_for_any_listing_order() {
    let one = vec![
        entry(b"b.txt", EntryKind::File),
        entry(b"d", EntryKind::Directory),
        entry(b"a.txt", EntryKind::File),
        entry(b"c", EntryKind::Directory),
    ];
    let other = vec![
        entry(b"c", EntryKind::Directory),
        entry(b"a.txt", EntryKind::File),
        entry(b"d", EntryKind::Directory),
        entry(b"b.txt", EntryKind::File),
    ];
    let f = frame(&one, b".txt");
    let g = frame(&other, b".txt");
    assert_eq!(f.files, g.files);
    assert_eq!(f.dirs, g.dirs);
}

#[test]
fn frame_of_an_empty_directory_is_empty() {
    let f = frame(&Vec::new(), b".txt");
    assert!(f.files.is_empty());
    assert!(f.dirs.is_empty());
}
