//! The emitter: one record per file, made of the file's path, a tab, the
//! file's contents with every run of whitespace collapsed to one space,
//! and a newline.

use vstd::prelude::*;
use vstd::utf8::valid_utf8;
use crate::whitespace::collapsed;

verus! {

/// The byte between the path and the contents of a record.
pub const TAB: u8 = 0x09;

/// The byte that ends a record.
pub const NEWLINE: u8 = 0x0A;

/// `regex::bytes::Regex`, a compiled rule, carried as it is.
#[verifier::external_type_specification]
#[verifier::external_body]
pub struct ExRegex(regex::bytes::Regex);

/// What `regex::bytes::Regex::as_str` returns for a compiled rule: the
/// pattern text that the rule was built from.
pub uninterp spec fn pattern_of(rule: regex::bytes::Regex) -> Seq<char>;

/// What `String::from_utf8_lossy` returns for `bytes`, as bytes: the
/// printable form of a path, which is the path itself where it is valid
/// UTF-8 and else has a replacement character for each invalid sequence.
pub uninterp spec fn utf8_lossy(bytes: Seq<u8>) -> Seq<u8>;

/// The pattern for one or more whitespace characters in a row.
pub open spec fn whitespace_runs() -> Seq<char> {
    "\\s+"@
}

/// `regex::bytes::Regex::new` on the pattern for runs of whitespace. The
/// pattern is fixed and well formed, so compiling it yields a rule, and
/// the rule remembers the pattern that it was built from.
#[verifier::external_body]
fn compile_whitespace_runs() -> (rule: regex::bytes::Regex)
    ensures
        pattern_of(rule) == whitespace_runs(),
{
    regex::bytes::Regex::new("\\s+").expect("static data")
}

/// `regex::bytes::Regex::replace_all` with a single space as the
/// replacement, on a rule for runs of whitespace. The rule matches a
/// whitespace character as the UTF-8 encoding of a code point with the
/// property White_Space, at any byte offset, and matches as many in a row
/// as there are; matches are taken from left to right and do not overlap.
/// So each maximal run is replaced by one space and every other byte is
/// copied.
#[verifier::external_body]
fn replace_runs(rule: &regex::bytes::Regex, data: &[u8]) -> (out: Vec<u8>)
    requires
        pattern_of(*rule) == whitespace_runs(),
    ensures
        out@ == collapsed(data@),
{
    rule.replace_all(data, &b" "[..]).into_owned()
}

/// `String::from_utf8_lossy`, with the text handed back as bytes. Valid
/// UTF-8 comes back unchanged.
#[verifier::external_body]
fn lossy_text(bytes: &[u8]) -> (text: Vec<u8>)
    ensures
        text@ == utf8_lossy(bytes@),
        valid_utf8(bytes@) ==> text@ == bytes@,
{
    String::from_utf8_lossy(bytes).into_owned().into_bytes()
}

/// The record for a file whose printable path is `path_text` and whose
/// collapsed contents are `content`.
pub open spec fn record_of(path_text: Seq<u8>, content: Seq<u8>) -> Seq<u8> {
    path_text + seq![TAB] + content + seq![NEWLINE]
}

/// The record for the file at `path` with the contents `data`.
pub open spec fn record_for(path: Seq<u8>, data: Seq<u8>) -> Seq<u8> {
    record_of(utf8_lossy(path), collapsed(data))
}

/// Puts a record together from a printable path and collapsed contents.
pub fn format_record(path_text: &[u8], content: &[u8]) -> (record: Vec<u8>)
    ensures
        record@ == record_of(path_text@, content@),
{
    let mut record: Vec<u8> = Vec::new();
    let mut i: usize = 0;
    while i < path_text.len()
        invariant
            i <= path_text.len(),
            record@ == path_text@.take(i as int),
        decreases path_text.len() - i,
    {
        record.push(path_text[i]);
        assert(path_text@.take(i + 1) =~= path_text@.take(i as int).push(path_text@[i as int]));
        i += 1;
    }
    record.push(TAB);
    let mut j: usize = 0;
    assert(path_text@.take(i as int) =~= path_text@);
    assert(record@ =~= path_text@ + seq![TAB] + content@.take(0));
    while j < content.len()
        invariant
            j <= content.len(),
            record@ == path_text@ + seq![TAB] + content@.take(j as int),
        decreases content.len() - j,
    {
        record.push(content[j]);
        assert(content@.take(j + 1) =~= content@.take(j as int).push(content@[j as int]));
        assert(record@ =~= path_text@ + seq![TAB] + content@.take(j + 1));
        j += 1;
    }
    record.push(NEWLINE);
    assert(content@.take(j as int) =~= content@);
    record
}

/// Turns files into records. It holds the compiled rule for runs of
/// whitespace, built once and used for every file.
pub struct Emitter {
    rule: regex::bytes::Regex,
}

impl Emitter {
    /// The pattern text of the rule that the emitter holds.
    pub closed spec fn pattern(&self) -> Seq<char> {
        pattern_of(self.rule)
    }

    /// The rule held is the one for runs of whitespace.
    #[verifier::type_invariant]
    spec fn holds_whitespace_rule(self) -> bool {
        self.pattern() == whitespace_runs()
    }

    /// Builds an emitter: compiles the rule for runs of whitespace, once,
    /// and holds it.
    pub fn new() -> (emitter: Emitter)
        ensures
            emitter.pattern() == whitespace_runs(),
    {
        Emitter { rule: compile_whitespace_runs() }
    }

    /// Replaces every maximal run of whitespace in `data` by one space.
    pub fn normalize(&self, data: &[u8]) -> (out: Vec<u8>)
        ensures
            out@ == collapsed(data@),
    {
        proof {
            use_type_invariant(self);
        }
        replace_runs(&self.rule, data)
    }

    /// Builds the record for the file at `path` with the contents `data`.
    pub fn record(&self, path: &[u8], data: &[u8]) -> (record: Vec<u8>)
        ensures
            record@ == record_for(path@, data@),
            valid_utf8(path@) ==> record@ == record_of(path@, collapsed(data@)),
    {
        let text = lossy_text(path);
        let content = self.normalize(data);
        format_record(text.as_slice(), content.as_slice())
    }
}

} // verus!
