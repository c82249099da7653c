//! Laws of the recipe grammar: what holds of every recipe, proved from the
//! definition of the parser.

use crate::line::{
    declared_key, declared_value, has_colon, is_comment, line_kind, opens_block, LineKind,
};
use crate::parser::{
    logical_lines, parsed, parsed_lines, run, start, stepped, unescaped, ParseError, ParseState,
};
use crate::recipe::{
    distinct_keys, has_key, inserted, key_index, lemma_appended, lemma_inserted, lemma_key_index,
    lemma_key_index_bounds, lemma_lookup_appended, lemma_lookup_inserted, lookup, EntryView,
};
use crate::text::{
    free_of, is_space, joined, lemma_free_of_parts, lemma_leading_spaces, lemma_lines_concat,
    lemma_lines_free_of_line_feed, lemma_lines_of_joined, lemma_offset_bounds, lemma_offset_of,
    lemma_replaced_concat, lemma_replaced_without, lemma_spaces_bounds, lemma_trimmed_ends,
    lemma_trimmed_idempotent, lemma_trimmed_range, lines, offset_of, replaced, trimmed,
    trimmed_start,
};
use vstd::prelude::*;

verus! {

/// Reading two runs of lines one after the other is reading the second run
/// in the state that the first one left.
pub proof fn lemma_run_concat(st: ParseState, a: Seq<Seq<char>>, b: Seq<Seq<char>>)
    ensures
        run(st, a + b) == match run(st, a) {
            Ok(mid) => run(mid, b),
            Err(e) => Err(e),
        },
    decreases a.len(),
{
    if a.len() == 0 {
        assert(a + b == b);
    } else {
        assert((a + b).first() == a.first());
        assert((a + b).drop_first() == a.drop_first() + b);
        match stepped(st, a.first()) {
            Ok(next) => lemma_run_concat(next, a.drop_first(), b),
            Err(_) => {},
        }
    }
}

/// Reading one line is one step.
pub proof fn lemma_run_one(st: ParseState, line: Seq<char>)
    ensures
        run(st, seq![line]) == stepped(st, line),
{
    reveal_with_fuel(run, 2);
    assert(seq![line].first() == line);
    assert(seq![line].drop_first().len() == 0);
}

/// A comment line changes nothing: not the open key, not any list of
/// values. A recipe with a comment among its logical lines declares what it
/// declares without it.
pub proof fn law_comment_changes_nothing(
    with: Seq<char>,
    without: Seq<char>,
    before: Seq<Seq<char>>,
    comment: Seq<char>,
    after: Seq<Seq<char>>,
)
    requires
        is_comment(comment),
        logical_lines(with) == before + seq![comment] + after,
        logical_lines(without) == before + after,
    ensures
        forall|st: ParseState| stepped(st, comment) == Ok::<ParseState, ParseError>(st),
        parsed(with) == parsed(without),
{
    lemma_run_concat(start(), before + seq![comment], after);
    lemma_run_concat(start(), before, seq![comment]);
    lemma_run_concat(start(), before, after);
    match run(start(), before) {
        Ok(mid) => {
            lemma_run_one(mid, comment);
        },
        Err(_) => {},
    }
}

/// The trimmed texts of the lines `ls`, in their order.
pub open spec fn payloads(ls: Seq<Seq<char>>) -> Seq<Seq<char>> {
    Seq::new(ls.len(), |i: int| trimmed(ls[i]))
}

/// Continuation lines read while `key` is open: each adds its trimmed text
/// to the values of `key`, and `key` stays open.
pub proof fn lemma_run_block(st: ParseState, key: Seq<char>, conts: Seq<Seq<char>>)
    requires
        st.open == Some(key),
        has_key(st.entries, key),
        forall|i: int|
            0 <= i < conts.len() ==> line_kind(#[trigger] conts[i]) == LineKind::Continuation,
    ensures
        run(st, conts) is Ok,
        run(st, conts)->Ok_0.open == Some(key),
        has_key(run(st, conts)->Ok_0.entries, key),
        lookup(run(st, conts)->Ok_0.entries, key) == Some(
            lookup(st.entries, key)->0 + payloads(conts),
        ),
    decreases conts.len(),
{
    if conts.len() == 0 {
        assert(lookup(st.entries, key)->0 + payloads(conts) =~= lookup(st.entries, key)->0);
    } else {
        let line = conts.first();
        assert(line == conts[0]);
        let next = stepped(st, line)->Ok_0;
        lemma_lookup_appended(st.entries, key, trimmed(line), key);
        let rest = conts.drop_first();
        assert forall|i: int| 0 <= i < rest.len() implies line_kind(#[trigger] rest[i])
            == LineKind::Continuation by {
            assert(rest[i] == conts[i + 1]);
        }
        lemma_run_block(next, key, rest);
        assert(lookup(st.entries, key)->0.push(trimmed(line)) + payloads(rest) =~= lookup(
            st.entries,
            key,
        )->0 + payloads(conts)) by {
            assert forall|i: int| 0 <= i < rest.len() implies payloads(rest)[i] == payloads(
                conts,
            )[i + 1] by {
                assert(rest[i] == conts[i + 1]);
            }
        }
    }
}

/// A declaration with an empty value, or with `|`, followed by continuation
/// lines holds exactly the trimmed texts of those lines, in their order,
/// whatever stood before it.
pub proof fn law_block_holds_its_lines(
    text: Seq<char>,
    before: Seq<Seq<char>>,
    declaration: Seq<char>,
    continuations: Seq<Seq<char>>,
)
    requires
        logical_lines(text) == before + seq![declaration] + continuations,
        parsed_lines(before) is Ok,
        line_kind(declaration) == LineKind::Declaration,
        has_colon(declaration),
        opens_block(declared_value(declaration)),
        forall|i: int|
            0 <= i < continuations.len() ==> line_kind(#[trigger] continuations[i])
                == LineKind::Continuation,
    ensures
        parsed(text) is Ok,
        lookup(parsed(text)->Ok_0, declared_key(declaration)) == Some(payloads(continuations)),
        payloads(continuations).len() == continuations.len(),
{
    let key = declared_key(declaration);
    lemma_run_concat(start(), before + seq![declaration], continuations);
    lemma_run_concat(start(), before, seq![declaration]);
    let mid = run(start(), before)->Ok_0;
    let opened = stepped(mid, declaration)->Ok_0;
    lemma_run_one(mid, declaration);
    lemma_lookup_inserted(mid.entries, key, Seq::empty(), key);
    lemma_run_block(opened, key, continuations);
    assert(Seq::<Seq<char>>::empty() + payloads(continuations) =~= payloads(continuations));
}

/// Two states that hold the same for `key` and have the same key open still
/// do so after the same lines, and fail on the same lines.
pub proof fn lemma_run_agrees(a: ParseState, b: ParseState, key: Seq<char>, ls: Seq<Seq<char>>)
    requires
        a.open == b.open,
        lookup(a.entries, key) == lookup(b.entries, key),
    ensures
        match run(a, ls) {
            Ok(end) => run(b, ls) is Ok && run(b, ls)->Ok_0.open == end.open && lookup(
                run(b, ls)->Ok_0.entries,
                key,
            ) == lookup(end.entries, key),
            Err(e) => run(b, ls) == Err::<ParseState, ParseError>(e),
        },
    decreases ls.len(),
{
    if ls.len() > 0 {
        let line = ls.first();
        match stepped(a, line) {
            Ok(next_a) => {
                let next_b = stepped(b, line)->Ok_0;
                assert(next_a.open == next_b.open);
                assert(lookup(next_a.entries, key) == lookup(next_b.entries, key)) by {
                    match line_kind(line) {
                        LineKind::Comment => {},
                        LineKind::Continuation => {
                            let open = a.open->0;
                            lemma_lookup_appended(a.entries, open, trimmed(line), key);
                            lemma_lookup_appended(b.entries, open, trimmed(line), key);
                        },
                        LineKind::Declaration => {
                            if has_colon(line) {
                                let declared = declared_key(line);
                                if opens_block(declared_value(line)) {
                                    lemma_lookup_inserted(a.entries, declared, Seq::empty(), key);
                                    lemma_lookup_inserted(b.entries, declared, Seq::empty(), key);
                                } else {
                                    let values = seq![declared_value(line)];
                                    lemma_lookup_inserted(a.entries, declared, values, key);
                                    lemma_lookup_inserted(b.entries, declared, values, key);
                                }
                            }
                        },
                    }
                }
                lemma_run_agrees(next_a, next_b, key, ls.drop_first());
            },
            Err(_) => {},
        }
    }
}

/// A key declared again keeps only what the later declaration gives it:
/// from a line that declares a key on, the recipe holds for that key what
/// it would hold if nothing stood before that line.
pub proof fn law_redeclaration_replaces(
    text: Seq<char>,
    alone: Seq<char>,
    before: Seq<Seq<char>>,
    rest: Seq<Seq<char>>,
)
    requires
        logical_lines(text) == before + rest,
        logical_lines(alone) == rest,
        rest.len() > 0,
        line_kind(rest.first()) == LineKind::Declaration,
        has_colon(rest.first()),
        parsed(text) is Ok,
    ensures
        parsed(alone) is Ok,
        lookup(parsed(text)->Ok_0, declared_key(rest.first())) == lookup(
            parsed(alone)->Ok_0,
            declared_key(rest.first()),
        ),
{
    let key = declared_key(rest.first());
    let line = rest.first();
    lemma_run_concat(start(), before, rest);
    let mid = run(start(), before)->Ok_0;
    let after_a = stepped(mid, line)->Ok_0;
    let after_b = stepped(start(), line)->Ok_0;
    if opens_block(declared_value(line)) {
        lemma_lookup_inserted(mid.entries, key, Seq::empty(), key);
        lemma_lookup_inserted(start().entries, key, Seq::empty(), key);
    } else {
        lemma_lookup_inserted(mid.entries, key, seq![declared_value(line)], key);
        lemma_lookup_inserted(start().entries, key, seq![declared_value(line)], key);
    }
    lemma_run_agrees(after_a, after_b, key, rest.drop_first());
}

/// A backslash directly before a line feed stands, together with the line
/// feed, for one space: a recipe with the two lines joined by a space in
/// their place declares the same.
pub proof fn law_escaped_line_feed_is_a_space(a: Seq<char>, b: Seq<char>)
    ensures
        unescaped(a + seq!['\\', '\n'] + b) == unescaped(a + seq![' '] + b),
        parsed(a + seq!['\\', '\n'] + b) == parsed(a + seq![' '] + b),
{
    let pat = seq!['\\', '\n'];
    let with = seq![' '];
    let escaped = pat + b;
    let spaced = with + b;
    assert(a + pat + b =~= a + escaped);
    assert(a + with + b =~= a + spaced);
    assert forall|i: int| 0 <= i < a.len() && i + pat.len() > a.len() implies !pat.is_prefix_of(
        #[trigger] (a + escaped).skip(i),
    ) by {
        let tail = (a + escaped).skip(i);
        assert(tail[1] == escaped[0]);
        if pat.is_prefix_of(tail) {
            assert(tail.subrange(0, 2)[1] == pat[1]);
        }
    }
    assert forall|i: int| 0 <= i < a.len() && i + pat.len() > a.len() implies !pat.is_prefix_of(
        #[trigger] (a + spaced).skip(i),
    ) by {
        let tail = (a + spaced).skip(i);
        assert(tail[1] == spaced[0]);
        if pat.is_prefix_of(tail) {
            assert(tail.subrange(0, 2)[1] == pat[1]);
        }
    }
    lemma_replaced_concat(a, escaped, pat, with);
    lemma_replaced_concat(a, spaced, pat, with);
    assert(replaced(escaped, pat, with) == with + replaced(b, pat, with)) by {
        assert(pat =~= escaped.subrange(0, 2));
        assert(escaped.skip(2) =~= b);
    }
    assert(replaced(spaced, pat, with) == with + replaced(b, pat, with)) by {
        if pat.is_prefix_of(spaced) {
            assert(spaced.subrange(0, 2)[0] == pat[0]);
        }
        assert(spaced.drop_first() =~= b);
        assert(seq![spaced.first()] =~= with);
    }
}

/// Whether no line of `ls` but the last ends with a backslash.
pub open spec fn free_of_escapes(ls: Seq<Seq<char>>) -> bool {
    forall|i: int| 0 <= i < ls.len() - 1 ==> !((#[trigger] ls[i]).len() > 0 && ls[i].last() == '\\')
}

/// The logical lines of a text joined from lines are those lines, where none
/// of them holds a line feed, none but the last ends with a backslash, and
/// the last is not empty.
pub proof fn lemma_logical_lines_of_joined(ls: Seq<Seq<char>>)
    requires
        forall|i: int| 0 <= i < ls.len() ==> free_of(#[trigger] ls[i], '\n'),
        free_of_escapes(ls),
        ls.len() > 0 ==> ls.last().len() > 0,
    ensures
        logical_lines(joined(ls)) == ls,
{
    lemma_unescaped_joined(ls);
    lemma_lines_of_joined(ls);
}

/// Nothing is unescaped in a text joined from lines of which none holds a
/// line feed and none but the last ends with a backslash.
pub proof fn lemma_unescaped_joined(ls: Seq<Seq<char>>)
    requires
        forall|i: int| 0 <= i < ls.len() ==> free_of(#[trigger] ls[i], '\n'),
        free_of_escapes(ls),
    ensures
        unescaped(joined(ls)) == joined(ls),
    decreases ls.len(),
{
    let pat = seq!['\\', '\n'];
    let with = seq![' '];
    assert(pat.last() == '\n');
    if ls.len() == 0 {
    } else if ls.len() == 1 {
        assert(ls.first() == ls[0]);
        lemma_replaced_without(ls.first(), pat, with);
    } else {
        let l = ls.first();
        assert(l == ls[0]);
        let rest = ls.drop_first();
        assert forall|i: int| 0 <= i < rest.len() implies free_of(#[trigger] rest[i], '\n') by {
            assert(rest[i] == ls[i + 1]);
        }
        assert forall|i: int| 0 <= i < rest.len() - 1 implies !((#[trigger] rest[i]).len() > 0
            && rest[i].last() == '\\') by {
            assert(rest[i] == ls[i + 1]);
        }
        lemma_unescaped_joined(rest);
        let tail = seq!['\n'] + joined(rest);
        assert(joined(ls) =~= l + tail);
        assert forall|i: int| 0 <= i < l.len() && i + pat.len() > l.len() implies
            !pat.is_prefix_of(#[trigger] (l + tail).skip(i)) by {
            let t = (l + tail).skip(i);
            assert(t[0] == l.last());
            if pat.is_prefix_of(t) {
                assert(t.subrange(0, 2)[0] == pat[0]);
            }
        }
        lemma_replaced_concat(l, tail, pat, with);
        lemma_replaced_without(l, pat, with);
        assert(replaced(tail, pat, with) == tail) by {
            if pat.is_prefix_of(tail) {
                assert(tail.subrange(0, 2)[0] == pat[0]);
            }
            assert(tail.drop_first() =~= joined(rest));
            assert(seq![tail.first()] =~= seq!['\n']);
        }
    }
}

/// The shape of a key that a recipe declares: trimmed, without a colon or a
/// line feed, and not beginning with `#`.
pub open spec fn key_shaped(key: Seq<char>) -> bool {
    &&& trimmed(key) == key
    &&& free_of(key, ':')
    &&& free_of(key, '\n')
    &&& key.len() > 0 ==> key.first() != '#'
}

/// The shape of a value that a recipe declares: trimmed, without a line
/// feed.
pub open spec fn value_shaped(value: Seq<char>) -> bool {
    trimmed(value) == value && free_of(value, '\n')
}

/// Whether every key and every value of `entries` has the shape of one that
/// a recipe declares.
pub open spec fn shaped(entries: Seq<EntryView>) -> bool {
    &&& forall|i: int| 0 <= i < entries.len() ==> key_shaped((#[trigger] entries[i]).key)
    &&& forall|i: int, j: int|
        0 <= i < entries.len() && 0 <= j < entries[i].values.len() ==> value_shaped(
            #[trigger] entries[i].values[j],
        )
}

/// What a declaration line declares has the shape of a key and of a value.
pub proof fn lemma_declaration_shaped(line: Seq<char>)
    requires
        !is_comment(line),
        free_of(line, '\n'),
    ensures
        key_shaped(declared_key(line)),
        has_colon(line) ==> value_shaped(declared_value(line)),
        value_shaped(trimmed(line)),
{
    lemma_offset_bounds(line, ':');
    let n = offset_of(line, ':') as int;
    let head = line.take(n);
    assert(head == line.subrange(0, n));
    let key = trimmed(head);
    lemma_trimmed_idempotent(head);
    lemma_free_of_parts(line, '\n', 0, n);
    assert(free_of(head, ':')) by {
        assert forall|i: int| 0 <= i < head.len() implies #[trigger] head[i] != ':' by {
            assert(head[i] == line[i]);
        }
    }
    lemma_free_of_parts(head, ':', 0, head.len() as int);
    let (a, b) = lemma_trimmed_range(head);
    if key.len() > 0 {
        lemma_spaces_bounds(head);
        assert(key.first() == head[a]);
        assert forall|i: int| 0 <= i < a implies is_space(#[trigger] line[i]) by {
            assert(head[i] == line[i]);
        }
        assert(head[a] == line[a]);
        lemma_leading_spaces(line, a);
        assert(trimmed_start(line).first() == line[a]);
    }
    lemma_trimmed_idempotent(line);
    lemma_free_of_parts(line, '\n', 0, line.len() as int);
    if has_colon(line) {
        let tail = line.skip(n + 1);
        assert(tail == line.subrange(n + 1, line.len() as int));
        lemma_trimmed_idempotent(tail);
        lemma_free_of_parts(line, '\n', n + 1, line.len() as int);
    }
}

/// One line read keeps the keys distinct and every key and value in shape.
pub proof fn lemma_stepped_shaped(st: ParseState, line: Seq<char>)
    requires
        shaped(st.entries),
        distinct_keys(st.entries),
        free_of(line, '\n'),
        stepped(st, line) is Ok,
    ensures
        shaped(stepped(st, line)->Ok_0.entries),
        distinct_keys(stepped(st, line)->Ok_0.entries),
{
    let next = stepped(st, line)->Ok_0.entries;
    match line_kind(line) {
        LineKind::Comment => {},
        LineKind::Continuation => {
            let key = st.open->0;
            lemma_declaration_shaped(line);
            lemma_appended(st.entries, key, trimmed(line));
            lemma_key_index_bounds(st.entries, key);
            let n = key_index(st.entries, key) as int;
            assert forall|i: int, j: int|
                0 <= i < next.len() && 0 <= j < next[i].values.len() implies value_shaped(
                #[trigger] next[i].values[j],
            ) by {
                if i == n && j == st.entries[i].values.len() {
                } else {
                    assert(next[i].values[j] == st.entries[i].values[j]);
                }
            }
            assert forall|i: int| 0 <= i < next.len() implies key_shaped(
                (#[trigger] next[i]).key,
            ) by {
                assert(next[i].key == st.entries[i].key);
            }
        },
        LineKind::Declaration => {
            if has_colon(line) {
                lemma_declaration_shaped(line);
                let key = declared_key(line);
                let values = if opens_block(declared_value(line)) {
                    Seq::<Seq<char>>::empty()
                } else {
                    seq![declared_value(line)]
                };
                lemma_inserted(st.entries, key, values);
                lemma_key_index_bounds(st.entries, key);
                let n = key_index(st.entries, key) as int;
                assert(next == inserted(st.entries, key, values));
                assert forall|i: int| 0 <= i < next.len() implies key_shaped(
                    (#[trigger] next[i]).key,
                ) by {
                    if i != n {
                        assert(next[i] == st.entries[i]);
                    }
                }
                assert forall|i: int, j: int|
                    0 <= i < next.len() && 0 <= j < next[i].values.len() implies value_shaped(
                    #[trigger] next[i].values[j],
                ) by {
                    if i != n {
                        assert(next[i] == st.entries[i]);
                        assert(next[i].values[j] == st.entries[i].values[j]);
                    }
                }
            }
        },
    }
}

/// Lines read keep the keys distinct and every key and value in shape.
pub proof fn lemma_run_shaped(st: ParseState, ls: Seq<Seq<char>>)
    requires
        shaped(st.entries),
        distinct_keys(st.entries),
        forall|i: int| 0 <= i < ls.len() ==> free_of(#[trigger] ls[i], '\n'),
        run(st, ls) is Ok,
    ensures
        shaped(run(st, ls)->Ok_0.entries),
        distinct_keys(run(st, ls)->Ok_0.entries),
    decreases ls.len(),
{
    if ls.len() > 0 {
        assert(ls.first() == ls[0]);
        lemma_stepped_shaped(st, ls.first());
        let rest = ls.drop_first();
        assert forall|i: int| 0 <= i < rest.len() implies free_of(#[trigger] rest[i], '\n') by {
            assert(rest[i] == ls[i + 1]);
        }
        lemma_run_shaped(stepped(st, ls.first())->Ok_0, rest);
    }
}

/// What a recipe declares has distinct keys, and keys and values in shape.
pub proof fn law_parsed_is_shaped(text: Seq<char>)
    requires
        parsed(text) is Ok,
    ensures
        distinct_keys(parsed(text)->Ok_0),
        shaped(parsed(text)->Ok_0),
{
    lemma_lines_free_of_line_feed(unescaped(text));
    lemma_run_shaped(start(), logical_lines(text));
}

/// The single-line form of an entry with one value: the key, a colon, a
/// space, the value.
pub open spec fn single_line(e: EntryView) -> Seq<char> {
    e.key + seq![':', ' '] + e.values[0]
}

/// The single-line forms of `entries`, in their order.
pub open spec fn single_lines(entries: Seq<EntryView>) -> Seq<Seq<char>> {
    Seq::new(entries.len(), |i: int| single_line(entries[i]))
}

/// The recipe that declares `entries` in single-line form, one entry on each
/// line.
pub open spec fn single_line_text(entries: Seq<EntryView>) -> Seq<char> {
    joined(single_lines(entries))
}

/// Whether every entry has exactly one value, and one that a single-line
/// declaration can give it: not empty and not `|`.
pub open spec fn single_valued(entries: Seq<EntryView>) -> bool {
    forall|i: int|
        0 <= i < entries.len() ==> (#[trigger] entries[i]).values.len() == 1 && !opens_block(
            entries[i].values[0],
        )
}

/// Whether no value but that of the last entry ends with a backslash, which
/// in single-line form would escape the line feed after it.
pub open spec fn escapes_nothing(entries: Seq<EntryView>) -> bool {
    forall|i: int|
        0 <= i < entries.len() - 1 ==> (#[trigger] entries[i]).values[0].last() != '\\'
}

/// The single-line form of a shaped entry is a declaration line that
/// declares the key of the entry with its value.
pub proof fn lemma_single_line(e: EntryView)
    requires
        key_shaped(e.key),
        e.values.len() == 1,
        value_shaped(e.values[0]),
        !opens_block(e.values[0]),
    ensures
        line_kind(single_line(e)) == LineKind::Declaration,
        has_colon(single_line(e)),
        declared_key(single_line(e)) == e.key,
        declared_value(single_line(e)) == e.values[0],
        free_of(single_line(e), '\n'),
        single_line(e).len() > 0,
        single_line(e).last() == e.values[0].last(),
{
    let key = e.key;
    let value = e.values[0];
    let line = single_line(e);
    let n = key.len() as int;
    assert(line.len() == n + 2 + value.len());
    assert forall|i: int| 0 <= i < n implies #[trigger] line[i] != ':' by {
        assert(line[i] == key[i]);
    }
    assert(line[n] == ':');
    lemma_offset_of(line, ':', n);
    assert(line.take(n) =~= key);
    let tail = line.skip(n + 1);
    assert(tail =~= seq![' '] + value);
    lemma_trimmed_ends(value);
    assert(trimmed(tail) == value) by {
        assert(tail[0] == ' ');
        assert(tail[1] == value[0]);
        assert forall|i: int| 0 <= i < 1 implies is_space(#[trigger] tail[i]) by {}
        lemma_leading_spaces(tail, 1);
        assert(trimmed_start(tail) =~= value);
    }
    assert(!is_space(line[0]) && line[0] != '#') by {
        if n > 0 {
            lemma_trimmed_ends(key);
            assert(line[0] == key[0]);
        }
    }
    lemma_leading_spaces(line, 0);
    assert(trimmed_start(line) =~= line);
    assert forall|i: int| 0 <= i < line.len() implies #[trigger] line[i] != '\n' by {
        if i < n {
            assert(line[i] == key[i]);
        } else if i >= n + 2 {
            assert(line[i] == value[i - n - 2]);
        }
    }
    assert(line.last() == value[value.len() - 1]);
}

/// Reading the single-line forms of the entries from index `i` on, in a
/// state that holds the entries before `i`, gives all the entries.
pub proof fn lemma_run_single_lines(entries: Seq<EntryView>, i: int, open: Option<Seq<char>>)
    requires
        0 <= i <= entries.len(),
        distinct_keys(entries),
        shaped(entries),
        single_valued(entries),
    ensures
        run(ParseState { entries: entries.take(i), open }, single_lines(entries).skip(i)) is Ok,
        run(
            ParseState { entries: entries.take(i), open },
            single_lines(entries).skip(i),
        )->Ok_0.entries == entries,
    decreases entries.len() - i,
{
    let st = ParseState { entries: entries.take(i), open };
    let ls = single_lines(entries).skip(i);
    if i == entries.len() {
        assert(entries.take(i) =~= entries);
    } else {
        let e = entries[i];
        assert(value_shaped(entries[i].values[0]));
        lemma_single_line(e);
        assert(ls.first() == single_line(e));
        let before = entries.take(i);
        assert forall|j: int| 0 <= j < before.len() implies (#[trigger] before[j]).key
            != e.key by {
            assert(before[j] == entries[j]);
        }
        lemma_key_index(before, e.key, i);
        assert(e.values =~= seq![e.values[0]]);
        assert(inserted(before, e.key, seq![e.values[0]]) =~= entries.take(i + 1));
        assert(stepped(st, ls.first()) == Ok::<ParseState, ParseError>(
            ParseState { entries: entries.take(i + 1), open: None },
        ));
        assert(ls.drop_first() =~= single_lines(entries).skip(i + 1));
        lemma_run_single_lines(entries, i + 1, None);
    }
}

/// The single-line form of shaped entries, read as a recipe, declares these
/// entries.
pub proof fn lemma_single_line_text_parses(entries: Seq<EntryView>)
    requires
        distinct_keys(entries),
        shaped(entries),
        single_valued(entries),
        escapes_nothing(entries),
    ensures
        parsed(single_line_text(entries)) == Ok::<Seq<EntryView>, ParseError>(entries),
{
    let ls = single_lines(entries);
    assert forall|i: int| 0 <= i < ls.len() implies free_of(#[trigger] ls[i], '\n') && ls[i].len()
        > 0 && ls[i].last() == entries[i].values[0].last() by {
        assert(value_shaped(entries[i].values[0]));
        lemma_single_line(entries[i]);
    }
    lemma_logical_lines_of_joined(ls);
    lemma_run_single_lines(entries, 0, None);
    assert(entries.take(0) =~= Seq::<EntryView>::empty());
    assert(ls.skip(0) =~= ls);
}

/// Parsing is idempotent on what it gives: where a recipe declares entries
/// with one value each, writing them in single-line form and parsing that
/// gives the same entries again.
///
/// A value that ends with a backslash would, written before another line,
/// escape the line feed after it; the law holds where no value but the last
/// does.
pub proof fn law_single_lines_round_trip(text: Seq<char>)
    requires
        parsed(text) is Ok,
        single_valued(parsed(text)->Ok_0),
        escapes_nothing(parsed(text)->Ok_0),
    ensures
        parsed(single_line_text(parsed(text)->Ok_0)) == parsed(text),
{
    law_parsed_is_shaped(text);
    lemma_single_line_text_parses(parsed(text)->Ok_0);
}

/// Whether `text` is a run of whole logical lines: it is empty, or ends with
/// a line feed that no backslash escapes.
pub open spec fn ends_a_line(text: Seq<char>) -> bool {
    text.len() > 0 ==> text.last() == '\n' && (text.len() >= 2 ==> text[text.len() - 2] != '\\')
}

/// Whether `line` can stand as one logical line before a line feed: it holds
/// no line feed and does not end with a backslash.
pub open spec fn whole_line(line: Seq<char>) -> bool {
    free_of(line, '\n') && (line.len() > 0 ==> line.last() != '\\')
}

/// The logical lines of two texts set side by side are those of the first
/// and then those of the second, where the first is a run of whole logical
/// lines.
pub proof fn lemma_logical_lines_concat(a: Seq<char>, b: Seq<char>)
    requires
        ends_a_line(a),
    ensures
        logical_lines(a + b) == logical_lines(a) + logical_lines(b),
{
    let pat = seq!['\\', '\n'];
    let with = seq![' '];
    if a.len() == 0 {
        assert(a + b =~= b);
        assert(logical_lines(a) + logical_lines(b) =~= logical_lines(b));
    } else {
        assert forall|i: int| 0 <= i < a.len() && i + pat.len() > a.len() implies
            !pat.is_prefix_of(#[trigger] (a + b).skip(i)) by {
            let t = (a + b).skip(i);
            assert(t[0] == a.last());
            if pat.is_prefix_of(t) {
                assert(t.subrange(0, 2)[0] == pat[0]);
            }
        }
        lemma_replaced_concat(a, b, pat, with);
        let head = a.drop_last();
        let feed = seq!['\n'];
        assert(a =~= head + feed);
        assert forall|i: int| 0 <= i < head.len() && i + pat.len() > head.len() implies
            !pat.is_prefix_of(#[trigger] (head + feed).skip(i)) by {
            let t = (head + feed).skip(i);
            assert(t[0] == a[a.len() - 2]);
            if pat.is_prefix_of(t) {
                assert(t.subrange(0, 2)[0] == pat[0]);
            }
        }
        lemma_replaced_concat(head, feed, pat, with);
        assert(replaced(feed, pat, with) == feed) by {
            reveal_with_fuel(replaced, 2);
            assert(feed.drop_first() =~= Seq::<char>::empty());
            assert(seq![feed.first()] + Seq::<char>::empty() =~= feed);
        }
        assert(unescaped(a).last() == '\n');
        lemma_lines_concat(unescaped(a), unescaped(b));
    }
}

/// A whole line and the line feed after it are one logical line.
pub proof fn lemma_logical_lines_of_line(line: Seq<char>)
    requires
        whole_line(line),
    ensures
        logical_lines(line + seq!['\n']) == seq![line],
        ends_a_line(line + seq!['\n']),
{
    let pat = seq!['\\', '\n'];
    let with = seq![' '];
    let feed = seq!['\n'];
    let text = line + feed;
    assert forall|i: int| 0 <= i < line.len() && i + pat.len() > line.len() implies
        !pat.is_prefix_of(#[trigger] (line + feed).skip(i)) by {
        let t = (line + feed).skip(i);
        assert(t[0] == line.last());
        if pat.is_prefix_of(t) {
            assert(t.subrange(0, 2)[0] == pat[0]);
        }
    }
    lemma_replaced_concat(line, feed, pat, with);
    assert(pat.last() == '\n');
    lemma_replaced_without(line, pat, with);
    assert(replaced(feed, pat, with) == feed) by {
        reveal_with_fuel(replaced, 2);
        assert(feed.drop_first() =~= Seq::<char>::empty());
        assert(seq![feed.first()] + Seq::<char>::empty() =~= feed);
    }
    assert(unescaped(text) == text);
    assert forall|i: int| 0 <= i < line.len() implies #[trigger] text[i] != '\n' by {
        assert(text[i] == line[i]);
    }
    lemma_offset_of(text, '\n', line.len() as int);
    assert(text.take(line.len() as int) =~= line);
    assert(lines(text.skip(line.len() as int + 1)) =~= Seq::<Seq<char>>::empty());
    assert(lines(text) =~= seq![line]);
    if line.len() > 0 {
        assert(text[text.len() - 2] == line.last());
    }
}

/// A comment line in a recipe changes nothing: the recipe declares what it
/// declares without that line.
pub proof fn law_comment_line_in_text(head: Seq<char>, comment: Seq<char>, tail: Seq<char>)
    requires
        ends_a_line(head),
        is_comment(comment),
        whole_line(comment),
    ensures
        parsed(head + comment + seq!['\n'] + tail) == parsed(head + tail),
{
    let line = comment + seq!['\n'];
    assert(head + comment + seq!['\n'] + tail =~= head + (line + tail));
    lemma_logical_lines_of_line(comment);
    lemma_logical_lines_concat(line, tail);
    lemma_logical_lines_concat(head, line + tail);
    lemma_logical_lines_concat(head, tail);
    assert(logical_lines(head) + (seq![comment] + logical_lines(tail)) =~= logical_lines(head)
        + seq![comment] + logical_lines(tail));
    law_comment_changes_nothing(
        head + (line + tail),
        head + tail,
        logical_lines(head),
        comment,
        logical_lines(tail),
    );
}

/// In a recipe, a declaration with an empty value, or with `|`, followed by
/// continuation lines holds exactly the trimmed texts of those lines, in
/// their order, whatever stood before it.
pub proof fn law_block_in_text(
    head: Seq<char>,
    declaration: Seq<char>,
    continuations: Seq<Seq<char>>,
)
    requires
        ends_a_line(head),
        parsed(head) is Ok,
        whole_line(declaration),
        line_kind(declaration) == LineKind::Declaration,
        has_colon(declaration),
        opens_block(declared_value(declaration)),
        forall|i: int|
            0 <= i < continuations.len() ==> line_kind(#[trigger] continuations[i])
                == LineKind::Continuation && free_of(continuations[i], '\n'),
        free_of_escapes(continuations),
    ensures
        parsed(head + declaration + seq!['\n'] + joined(continuations)) is Ok,
        lookup(
            parsed(head + declaration + seq!['\n'] + joined(continuations))->Ok_0,
            declared_key(declaration),
        ) == Some(payloads(continuations)),
{
    let line = declaration + seq!['\n'];
    let block = joined(continuations);
    let text = head + declaration + seq!['\n'] + block;
    assert(text =~= head + (line + block));
    lemma_logical_lines_of_line(declaration);
    lemma_logical_lines_concat(line, block);
    lemma_logical_lines_concat(head, line + block);
    lemma_logical_lines_of_joined(continuations);
    assert(logical_lines(head) + (seq![declaration] + continuations) =~= logical_lines(head)
        + seq![declaration] + continuations);
    law_block_holds_its_lines(text, logical_lines(head), declaration, continuations);
}

/// In a recipe, a key declared again keeps only what the later declaration
/// gives it: what stands before the line that declares it again does not
/// matter to what the recipe holds for the key.
pub proof fn law_redeclaration_in_text(head: Seq<char>, rest: Seq<char>)
    requires
        ends_a_line(head),
        logical_lines(rest).len() > 0,
        line_kind(logical_lines(rest).first()) == LineKind::Declaration,
        has_colon(logical_lines(rest).first()),
        parsed(head + rest) is Ok,
    ensures
        parsed(rest) is Ok,
        lookup(parsed(head + rest)->Ok_0, declared_key(logical_lines(rest).first())) == lookup(
            parsed(rest)->Ok_0,
            declared_key(logical_lines(rest).first()),
        ),
{
    lemma_logical_lines_concat(head, rest);
    law_redeclaration_replaces(head + rest, rest, logical_lines(head), logical_lines(rest));
}

} // verus!
