use flatdir::name::{ends_with, hidden, join, le, same};

#[test]
fn suffix_is_a_raw_trailing_substring() {
    assert!(ends_with(b"index.js", b"s"));
    assert!(ends_with(b"a.txt", b".txt"));
    assert!(!ends_with(b"a.txt", b".md"));
    assert!(!ends_with(b"xt", b".txt"));
}

#[test]
fn hidden_names_begin_with_a_dot() {
    assert!(hidden(b".git"));
    assert!(!hidden(b"a.b"));
    assert!(!hidden(b""));
}

#[test]
fn join_puts_a_separator_between() {
    assert_eq!(join(b".", b"a.txt"), b"./a.txt".to_vec());
}

#[test]
fn byte_order_is_lexicographic() {
    assert!(le(b"a", b"ab"));
    assert!(le(b"ab", b"b"));
    assert!(!le(b"b", b"ab"));
    assert!(le(b"", b""));
}

#[test]
fn same_compares_byte_for_byte() {
    assert!(same(b"abc", b"abc"));
    assert!(same(b"", b""));
    assert!(!same(b"abc", b"abd"));
    assert!(!same(b"abc", b"ab"));
}

#[test]
fn join_keeps_the_directory_as_it_is() {
    assert_eq!(join(b"./a/b", b"c"), b"./a/b/c".to_vec());
    assert_eq!(join(b"", b"c"), b"/c".to_vec());
}
