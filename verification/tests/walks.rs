use flatdir::frame::{DirEntry, EntryKind};
use flatdir::snapshot::{Item, Node, Snapshot};
use flatdir::walk::walk;
use flatdir::walker::Walker;

fn file(name: &[u8], data: &[u8]) -> Node {
    Node { name: name.to_vec(), item: Item::File(Some(data.to_vec())) }
}

fn dir(name: &[u8], entries: Vec<Node>) -> Node {
    Node { name: name.to_vec(), item: Item::Directory(Snapshot { entries }) }
}

fn paths(list: &[&[u8]]) -> Vec<Vec<u8>> {
    list.iter().map(|n| n.to_vec()).collect()
}

fn entry(name: &[u8], kind: EntryKind) -> DirEntry {
    DirEntry { name: name.to_vec(), kind }
}

#[test]
fn walker_starts_with_the_root() {
    let mut w = Walker::new(b".", b".txt");
    assert!(!w.is_done());
    assert_eq!(w.next_directory(), Some(b".".to_vec()));
    assert!(w.is_done());
    assert_eq!(w.next_directory(), None);
}

#[test]
fn walker_publishes_files_and_schedules_directories() {
    let mut w = Walker::new(b".", b".txt");
    let root = w.next_directory().unwrap();
    let listing = vec![
        entry(b"b", EntryKind::Directory),
        entry(b"z.txt", EntryKind::File),
        entry(b"a", EntryKind::Directory),
        entry(b"y.txt", EntryKind::File),
    ];
    let files = w.visit(&root, &listing);
    assert_eq!(files, paths(&[b"./y.txt", b"./z.txt"]));
    assert_eq!(w.next_directory(), Some(b"./a".to_vec()));
    let inner = vec![entry(b"deep", EntryKind::Directory), entry(b"in.txt", EntryKind::File)];
    let files = w.visit(b"./a", &inner);
    assert_eq!(files, paths(&[b"./a/in.txt"]));
    assert_eq!(w.next_directory(), Some(b"./a/deep".to_vec()));
    assert!(w.visit(b"./a/deep", &Vec::new()).is_empty());
    assert_eq!(w.next_directory(), Some(b"./b".to_vec()));
    assert!(w.visit(b"./b", &Vec::new()).is_empty());
    assert!(w.is_done());
}

#[test]
fn walk_publishes_files_before_subdirectories() {
    let tree = Snapshot {
        entries: vec![
            dir(b"sub", vec![file(b"inner.txt", b"x")]),
            file(b"b.txt", b"x"),
            dir(b"aaa", vec![file(b"z.txt", b"x"), file(b"a.txt", b"x")]),
            file(b"a.txt", b"x"),
        ],
    };
    let out = walk(&tree, b".", b".txt");
    assert_eq!(
        out,
        paths(&[b"./a.txt", b"./b.txt", b"./aaa/a.txt", b"./aaa/z.txt", b"./sub/inner.txt"])
    );
}

#[test]
fn walk_finishes_one_subdirectory_before_the_next() {
    let tree = Snapshot {
        entries: vec![
            dir(b"b", vec![file(b"1.c", b"")]),
            dir(b"a", vec![dir(b"y", vec![file(b"3.c", b"")]), file(b"2.c", b""), dir(b"x", vec![file(b"4.c", b"")])]),
        ],
    };
    let out = walk(&tree, b"root", b".c");
    assert_eq!(out, paths(&[b"root/a/2.c", b"root/a/x/4.c", b"root/a/y/3.c", b"root/b/1.c"]));
}

#[test]
fn walk_never_enters_a_hidden_directory() {
    let tree = Snapshot {
        entries: vec![dir(b".hidden", vec![file(b"file.txt", b"secret")]), file(b"seen.txt", b"x")],
    };
    assert_eq!(walk(&tree, b".", b".txt"), paths(&[b"./seen.txt"]));
}

#[test]
fn walk_never_publishes_a_hidden_file() {
    let tree = Snapshot { entries: vec![file(b".a.txt", b"x"), dir(b"d", vec![file(b".b.txt", b"x")])] };
    assert!(walk(&tree, b".", b".txt").is_empty());
}

#[test]
fn walk_of_an_empty_directory_publishes_nothing() {
    let tree = Snapshot { entries: Vec::new() };
    assert!(walk(&tree, b".", b".txt").is_empty());
}

#[test]
fn walk_skips_what_is_neither_file_nor_directory() {
    let tree = Snapshot {
        entries: vec![Node { name: b"pipe.txt".to_vec(), item: Item::Other }, file(b"a.txt", b"")],
    };
    assert_eq!(walk(&tree, b".", b".txt"), paths(&[b"./a.txt"]));
}

#[test]
fn walk_publishes_every_match_exactly_once() {
    let tree = Snapshot {
        entries: vec![
            file(b"c.rs", b""),
            dir(b"m", vec![file(b"a.rs", b""), file(b"b.md", b""), dir(b"n", vec![file(b"d.rs", b"")])]),
            dir(b".git", vec![file(b"e.rs", b"")]),
            file(b"a.rs", b""),
        ],
    };
    let mut out = walk(&tree, b".", b".rs");
    out.sort();
    assert_eq!(out, paths(&[b"./a.rs", b"./c.rs", b"./m/a.rs", b"./m/n/d.rs"]));
}

#[test]
fn walk_does_not_depend_on_the_order_of_the_listing() {
    let one = Snapshot {
        entries: vec![file(b"b.txt", b""), dir(b"d", vec![file(b"y.txt", b""), file(b"x.txt", b"")]), file(b"a.txt", b"")],
    };
    let other = Snapshot {
        entries: vec![file(b"a.txt", b""), file(b"b.txt", b""), dir(b"d", vec![file(b"x.txt", b""), file(b"y.txt", b"")])],
    };
    assert_eq!(walk(&one, b".", b".txt"), walk(&other, b".", b".txt"));
}

#[test]
fn snapshot_lists_names_and_kinds() {
    let tree = Snapshot {
        entries: vec![file(b"a", b""), dir(b"b", Vec::new()), Node { name: b"c".to_vec(), item: Item::Other }],
    };
    let listing = tree.list();
    assert_eq!(listing.len(), 3);
    assert_eq!(listing[0].name, b"a".to_vec());
    assert_eq!(listing[0].kind, EntryKind::File);
    assert_eq!(listing[1].kind, EntryKind::Directory);
    assert_eq!(listing[2].kind, EntryKind::Other);
}

#[test]
fn snapshot_finds_a_directory_by_name() {
    let tree = Snapshot { entries: vec![file(b"x", b""), dir(b"x", vec![file(b"in", b"")]), dir(b"y", Vec::new())] };
    assert_eq!(tree.find_directory(b"x").unwrap().entries.len(), 1);
    assert!(tree.find_directory(b"y").unwrap().entries.is_empty());
    assert!(tree.find_directory(b"z").is_none());
}
