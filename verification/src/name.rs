//! File names and paths as byte strings: the hidden-name rule, the suffix
//! test, the byte order used for sorting, and path joining.

use vstd::prelude::*;

verus! {

/// The byte that separates the components of a path.
pub const SEPARATOR: u8 = 0x2F;

/// The byte that marks a hidden name when it comes first.
pub const DOT: u8 = 0x2E;

/// A name is hidden when it begins with a dot.
pub open spec fn is_hidden(name: Seq<u8>) -> bool {
    name.len() > 0 && name[0] == DOT
}

/// `name` ends with the bytes of `suffix`.
pub open spec fn has_suffix(name: Seq<u8>, suffix: Seq<u8>) -> bool {
    suffix.len() <= name.len() && name.subrange(name.len() - suffix.len(), name.len() as int)
        == suffix
}

/// The path of the entry `name` inside the directory `dir`.
pub open spec fn joined(dir: Seq<u8>, name: Seq<u8>) -> Seq<u8> {
    dir + seq![SEPARATOR] + name
}

/// Lexicographic order on byte strings: the first differing byte decides,
/// and a proper prefix comes before any of its extensions.
pub open spec fn lex_le(a: Seq<u8>, b: Seq<u8>) -> bool
    decreases a.len(),
{
    if a.len() == 0 {
        true
    } else if b.len() == 0 {
        false
    } else if a[0] != b[0] {
        a[0] < b[0]
    } else {
        lex_le(a.drop_first(), b.drop_first())
    }
}

/// Tells whether a name is hidden.
pub fn hidden(name: &[u8]) -> (r: bool)
    ensures
        r == is_hidden(name@),
{
    name.len() > 0 && name[0] == DOT
}

/// Tells whether `name` ends with `suffix`, byte for byte.
pub fn ends_with(name: &[u8], suffix: &[u8]) -> (r: bool)
    ensures
        r == has_suffix(name@, suffix@),
{
    if suffix.len() > name.len() {
        return false;
    }
    let start: usize = name.len() - suffix.len();
    let mut i: usize = 0;
    while i < suffix.len()
        invariant
            start + suffix.len() == name.len(),
            i <= suffix.len(),
            forall|k: int| 0 <= k < i ==> name@[start + k] == suffix@[k],
        decreases suffix.len() - i,
    {
        if name[start + i] != suffix[i] {
            proof {
                let tail = name@.subrange(name@.len() - suffix@.len(), name@.len() as int);
                assert(tail[i as int] == name@[start + i]);
            }
            return false;
        }
        i += 1;
    }
    proof {
        let tail = name@.subrange(name@.len() - suffix@.len(), name@.len() as int);
        assert(tail =~= suffix@);
    }
    true
}

/// Tells whether two byte strings are the same.
pub fn same(a: &[u8], b: &[u8]) -> (r: bool)
    ensures
        r == (a@ == b@),
{
    if a.len() != b.len() {
        return false;
    }
    let mut i: usize = 0;
    while i < a.len()
        invariant
            a.len() == b.len(),
            i <= a.len(),
            forall|k: int| 0 <= k < i ==> a@[k] == b@[k],
        decreases a.len() - i,
    {
        if a[i] != b[i] {
            return false;
        }
        i += 1;
    }
    assert(a@ =~= b@);
    true
}

/// Builds the path of `name` inside `dir`.
pub fn join(dir: &[u8], name: &[u8]) -> (path: Vec<u8>)
    ensures
        path@ == joined(dir@, name@),
{
    let mut path: Vec<u8> = Vec::new();
    let mut i: usize = 0;
    while i < dir.len()
        invariant
            i <= dir.len(),
            path@ == dir@.subrange(0, i as int),
        decreases dir.len() - i,
    {
        path.push(dir[i]);
        i += 1;
    }
    path.push(SEPARATOR);
    let mut j: usize = 0;
    while j < name.len()
        invariant
            j <= name.len(),
            path@ == dir@ + seq![SEPARATOR] + name@.subrange(0, j as int),
        decreases name.len() - j,
    {
        path.push(name[j]);
        j += 1;
    }
    assert(name@.subrange(0, name@.len() as int) == name@);
    path
}

/// Compares two byte strings in lexicographic order.
pub fn le(a: &[u8], b: &[u8]) -> (r: bool)
    ensures
        r == lex_le(a@, b@),
{
    let mut i: usize = 0;
    assert(a@.skip(0) == a@ && b@.skip(0) == b@);
    while i < a.len() && i < b.len()
        invariant
            i <= a.len(),
            i <= b.len(),
            lex_le(a@, b@) == lex_le(a@.skip(i as int), b@.skip(i as int)),
        decreases a.len() - i,
    {
        proof {
            let x = a@.skip(i as int);
            let y = b@.skip(i as int);
            assert(x.drop_first() == a@.skip(i + 1));
            assert(y.drop_first() == b@.skip(i + 1));
        }
        if a[i] != b[i] {
            return a[i] < b[i];
        }
        i += 1;
    }
    i == a.len()
}

} // verus!
