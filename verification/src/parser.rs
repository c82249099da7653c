//! The recipe parser: from the text of a recipe to its raw mapping.
//!
//! A backslash directly before a line feed joins two physical lines into one
//! logical line. The logical lines are then read one by one by a machine
//! whose only state, besides the mapping built so far, is the key that is
//! open for continuation lines.

use crate::line::{
    classify, declared_key, declared_value, has_colon, is_block_marker, line_kind, opens_block,
    split_declaration, LineKind,
};
use crate::recipe::{
    appended, distinct_keys, entry_views, insert_entry, inserted, push_value, Entry, EntryView,
    RecipeMap,
};
use crate::text::{chars_of, lines, replace, replaced, split_line, string_of, trim, trimmed};
use vstd::prelude::*;

verus! {

/// Why a recipe cannot be parsed.
#[derive(Clone, Copy, Debug, PartialEq, Eq, Structural)]
pub enum ParseError {
    /// A continuation line stands where no key is open: before any
    /// declaration, or after a declaration that opened no block.
    DanglingContinuation,
}

/// The state of the parser between two lines.
pub struct ParseState {
    /// The mapping built so far.
    pub entries: Seq<EntryView>,
    /// The key that accepts continuation lines, if one is open.
    pub open: Option<Seq<char>>,
}

/// The state before the first line: no entry, no open key.
pub open spec fn start() -> ParseState {
    ParseState { entries: Seq::empty(), open: None }
}

/// The state after `line` was read in the state `st`.
///
/// A comment changes nothing. A continuation line adds its trimmed text to
/// the values of the open key, and is an error where no key is open. Any
/// other line closes the open key; if it holds a colon it declares a key,
/// with no value and open for continuation lines where the declared value
/// is empty or `|`, else with that one value.
pub open spec fn stepped(st: ParseState, line: Seq<char>) -> Result<ParseState, ParseError> {
    match line_kind(line) {
        LineKind::Comment => Ok(st),
        LineKind::Continuation => match st.open {
            Some(key) => Ok(
                ParseState { entries: appended(st.entries, key, trimmed(line)), open: st.open },
            ),
            None => Err(ParseError::DanglingContinuation),
        },
        LineKind::Declaration => if !has_colon(line) {
            Ok(ParseState { entries: st.entries, open: None })
        } else if opens_block(declared_value(line)) {
            Ok(
                ParseState {
                    entries: inserted(st.entries, declared_key(line), Seq::empty()),
                    open: Some(declared_key(line)),
                },
            )
        } else {
            Ok(
                ParseState {
                    entries: inserted(st.entries, declared_key(line), seq![declared_value(line)]),
                    open: None,
                },
            )
        },
    }
}

/// The state after the lines `ls` were read one after the other, starting in
/// the state `st`, or the error of the first line that has one.
pub open spec fn run(st: ParseState, ls: Seq<Seq<char>>) -> Result<ParseState, ParseError>
    decreases ls.len(),
{
    if ls.len() == 0 {
        Ok(st)
    } else {
        match stepped(st, ls.first()) {
            Ok(next) => run(next, ls.drop_first()),
            Err(e) => Err(e),
        }
    }
}

/// `text` with every line feed that directly follows a backslash replaced,
/// together with that backslash, by one space.
pub open spec fn unescaped(text: Seq<char>) -> Seq<char> {
    replaced(text, seq!['\\', '\n'], seq![' '])
}

/// The logical lines of a recipe: its lines after escaped line feeds were
/// taken out.
pub open spec fn logical_lines(text: Seq<char>) -> Seq<Seq<char>> {
    lines(unescaped(text))
}

/// The mapping that the logical lines `ls` declare.
pub open spec fn parsed_lines(ls: Seq<Seq<char>>) -> Result<Seq<EntryView>, ParseError> {
    match run(start(), ls) {
        Ok(st) => Ok(st.entries),
        Err(e) => Err(e),
    }
}

/// The mapping that the recipe `text` declares.
pub open spec fn parsed(text: Seq<char>) -> Result<Seq<EntryView>, ParseError> {
    parsed_lines(logical_lines(text))
}

/// The parser state that the executable parser holds: the entries read so
/// far and the index of the open entry.
pub open spec fn state_of(es: Seq<Entry>, open: Option<usize>) -> ParseState {
    ParseState {
        entries: entry_views(es),
        open: match open {
            Some(i) => Some(es[i as int].key@),
            None => None,
        },
    }
}

/// Takes the escaped line feeds out of `text`.
pub fn unescape(text: &[char]) -> (r: Vec<char>)
    ensures
        r@ == unescaped(text@),
{
    let mut pat: Vec<char> = Vec::new();
    pat.push('\\');
    pat.push('\n');
    let mut with: Vec<char> = Vec::new();
    with.push(' ');
    assert(pat@ =~= seq!['\\', '\n']);
    assert(with@ =~= seq![' ']);
    replace(text, pat.as_slice(), with.as_slice())
}

/// Reads one logical line: `entries` and the index of the open entry go from
/// the state before the line to the state after it.
pub(crate) fn apply_line(entries: &mut Vec<Entry>, open: Option<usize>, line: &[char]) -> (r: Result<
    Option<usize>,
    ParseError,
>)
    requires
        distinct_keys(entry_views(old(entries)@)),
        open matches Some(i) ==> i < old(entries)@.len(),
    ensures
        distinct_keys(entry_views(final(entries)@)),
        match r {
            Ok(next) => (next matches Some(i) ==> i < final(entries)@.len()) && stepped(
                state_of(old(entries)@, open),
                line@,
            ) == Ok::<ParseState, ParseError>(state_of(final(entries)@, next)),
            Err(e) => stepped(state_of(old(entries)@, open), line@) == Err::<
                ParseState,
                ParseError,
            >(e),
        },
{
    match classify(line) {
        LineKind::Comment => Ok(open),
        LineKind::Continuation => match open {
            Some(i) => {
                push_value(entries, i, string_of(trim(line)));
                Ok(open)
            },
            None => Err(ParseError::DanglingContinuation),
        },
        LineKind::Declaration => match split_declaration(line) {
            None => Ok(None),
            Some((key, value)) => {
                if is_block_marker(value) {
                    let values: Vec<String> = Vec::new();
                    assert(values.deep_view() =~= Seq::<Seq<char>>::empty());
                    let i = insert_entry(entries, string_of(key), values);
                    Ok(Some(i))
                } else {
                    let mut values: Vec<String> = Vec::new();
                    values.push(string_of(value));
                    assert(values.deep_view() =~= seq![value@]);
                    insert_entry(entries, string_of(key), values);
                    Ok(None)
                }
            },
        },
    }
}

/// Parses the lines of `text`, in which no escaped line feed is left.
pub fn parse_lines(text: &[char]) -> (r: Result<RecipeMap, ParseError>)
    ensures
        match r {
            Ok(map) => parsed_lines(lines(text@)) == Ok::<Seq<EntryView>, ParseError>(map@),
            Err(e) => parsed_lines(lines(text@)) == Err::<Seq<EntryView>, ParseError>(e),
        },
{
    let mut entries: Vec<Entry> = Vec::new();
    let mut open: Option<usize> = None;
    let mut rest = text;
    assert(state_of(entries@, open) == start()) by {
        assert(entry_views(entries@) =~= Seq::<EntryView>::empty());
    }
    while rest.len() > 0
        invariant
            distinct_keys(entry_views(entries@)),
            open matches Some(i) ==> i < entries@.len(),
            run(start(), lines(text@)) == run(state_of(entries@, open), lines(rest@)),
        decreases rest@.len(),
    {
        let (line, tail) = split_line(rest);
        match apply_line(&mut entries, open, line) {
            Ok(next) => {
                open = next;
            },
            Err(e) => {
                return Err(e);
            },
        }
        rest = tail;
    }
    Ok(RecipeMap::from_entries(entries))
}

/// Parses the text of a recipe into its raw mapping.
///
/// The result is the mapping that [`parsed`] gives for the text, or its
/// error: a continuation line for which no key is open.
pub fn parse(file: &str) -> (r: Result<RecipeMap, ParseError>)
    ensures
        match r {
            Ok(map) => parsed(file@) == Ok::<Seq<EntryView>, ParseError>(map@),
            Err(e) => parsed(file@) == Err::<Seq<EntryView>, ParseError>(e),
        },
{
    let raw = chars_of(file);
    let text = unescape(raw.as_slice());
    parse_lines(text.as_slice())
}

} // verus!
