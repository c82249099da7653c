//! The line classifier: what one line of a recipe is, and what a declaration
//! line declares.

use crate::text::{chars_of, find_char, offset_of, trim, trim_start, trimmed, trimmed_start};
use vstd::prelude::*;
use vstd::slice::slice_subrange;

verus! {

/// What a line of a recipe is.
#[derive(Clone, Copy, Debug, PartialEq, Eq, Structural)]
pub enum LineKind {
    /// The first character after the leading white space is `#`.
    Comment,
    /// The line begins with a tab or with four spaces.
    Continuation,
    /// Any other line: a candidate `key: value`.
    Declaration,
}

/// Whether the first character of `line` after its leading white space is `#`.
pub open spec fn is_comment(line: Seq<char>) -> bool {
    let t = trimmed_start(line);
    t.len() > 0 && t.first() == '#'
}

/// Whether `line` begins with a tab or with four spaces.
pub open spec fn is_indented(line: Seq<char>) -> bool {
    ||| line.len() >= 1 && line[0] == '\t'
    ||| line.len() >= 4 && line[0] == ' ' && line[1] == ' ' && line[2] == ' ' && line[3] == ' '
}

/// The kind of `line`. A comment is a comment however it is indented.
pub open spec fn line_kind(line: Seq<char>) -> LineKind {
    if is_comment(line) {
        LineKind::Comment
    } else if is_indented(line) {
        LineKind::Continuation
    } else {
        LineKind::Declaration
    }
}

/// Whether `line` holds a colon, and so declares a key.
pub open spec fn has_colon(line: Seq<char>) -> bool {
    offset_of(line, ':') < line.len()
}

/// The key that `line` declares: what stands before its first colon, trimmed.
pub open spec fn declared_key(line: Seq<char>) -> Seq<char> {
    trimmed(line.take(offset_of(line, ':') as int))
}

/// The value that `line` declares: what stands after its first colon, trimmed.
pub open spec fn declared_value(line: Seq<char>) -> Seq<char>
    recommends
        has_colon(line),
{
    trimmed(line.skip(offset_of(line, ':') as int + 1))
}

/// Whether a declared value opens a block of continuation lines: it is empty
/// or the marker `|`.
pub open spec fn opens_block(value: Seq<char>) -> bool {
    value.len() == 0 || value == seq!['|']
}

/// The kind of `line`, on its characters.
pub fn classify(line: &[char]) -> (kind: LineKind)
    ensures
        kind == line_kind(line@),
{
    let t = trim_start(line);
    if t.len() > 0 && t[0] == '#' {
        LineKind::Comment
    } else if line.len() >= 1 && line[0] == '\t' {
        LineKind::Continuation
    } else if line.len() >= 4 && line[0] == ' ' && line[1] == ' ' && line[2] == ' ' && line[3]
        == ' ' {
        LineKind::Continuation
    } else {
        LineKind::Declaration
    }
}

/// The kind of `line`, a line of text without its line feed.
pub fn classify_line(line: &str) -> (kind: LineKind)
    ensures
        kind == line_kind(line@),
{
    let v = chars_of(line);
    classify(v.as_slice())
}

/// Splits a declaration line at its first colon. Returns the trimmed key and
/// the trimmed value, or `None` for a line without a colon.
pub fn split_declaration(line: &[char]) -> (r: Option<(&[char], &[char])>)
    ensures
        match r {
            Some((key, value)) => has_colon(line@) && key@ == declared_key(line@) && value@
                == declared_value(line@),
            None => !has_colon(line@),
        },
{
    let n = find_char(line, ':');
    if n < line.len() {
        let key = trim(slice_subrange(line, 0, n));
        let value = trim(slice_subrange(line, n + 1, line.len()));
        Some((key, value))
    } else {
        None
    }
}

/// Decides [`opens_block`].
pub fn is_block_marker(value: &[char]) -> (b: bool)
    ensures
        b == opens_block(value@),
{
    if value.len() == 0 {
        true
    } else if value.len() == 1 && value[0] == '|' {
        assert(value@ =~= seq!['|']);
        true
    } else {
        assert(value@ != seq!['|']) by {
            if value@.len() == 1 {
                assert(value@[0] != seq!['|'][0]);
            } else {
                assert(seq!['|'].len() == 1);
            }
        }
        false
    }
}

} // verus!
