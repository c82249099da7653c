//! Character sequences: the conversions between `str`/`String` and slices of
//! `char`, and the sequence operations the recipe grammar is written in.
//!
//! Every operation is specified over `Seq<char>`, the view of `str` and
//! `String`. The executable functions work on `&[char]`, so that a text is
//! decoded once and then sliced without copying.

use vstd::prelude::*;
use vstd::slice::slice_subrange;

verus! {

/// Assumed of `String::push` of the standard library, and not proved here:
/// after the call the string holds the characters that it held before,
/// followed by `ch`.
pub assume_specification[ String::push ](s: &mut String, ch: char)
    ensures
        final(s)@ == old(s)@.push(ch),
;

/// The characters of `s`, in order.
pub fn chars_of(s: &str) -> (v: Vec<char>)
    ensures
        v@ == s@,
{
    let mut v: Vec<char> = Vec::new();
    let it = s.chars();
    for c in iter: it
        invariant
            v@ == iter.seq().take(iter.index() as int),
    {
        v.push(c);
    }
    v
}

/// The string made of the characters of `s`, in order.
pub fn string_of(s: &[char]) -> (r: String)
    ensures
        r@ == s@,
{
    let mut r = String::new();
    let mut i: usize = 0;
    while i < s.len()
        invariant
            i <= s.len(),
            r@ == s@.take(i as int),
        decreases s.len() - i,
    {
        r.push(s[i]);
        i += 1;
    }
    r
}

/// Whether `c` is white space: one of the code points that carry the Unicode
/// property `White_Space`.
pub open spec fn is_space(c: char) -> bool {
    let n = c as u32;
    ||| 0x09 <= n <= 0x0D
    ||| n == 0x20
    ||| n == 0x85
    ||| n == 0xA0
    ||| n == 0x1680
    ||| 0x2000 <= n <= 0x200A
    ||| n == 0x2028
    ||| n == 0x2029
    ||| n == 0x202F
    ||| n == 0x205F
    ||| n == 0x3000
}

/// Decides [`is_space`].
pub fn is_space_char(c: char) -> (b: bool)
    ensures
        b == is_space(c),
{
    let n: u32 = c as u32;
    (0x09 <= n && n <= 0x0D) || n == 0x20 || n == 0x85 || n == 0xA0 || n == 0x1680 || (0x2000 <= n
        && n <= 0x200A) || n == 0x2028 || n == 0x2029 || n == 0x202F || n == 0x205F || n == 0x3000
}

/// How many white-space characters `s` begins with.
pub open spec fn leading_spaces(s: Seq<char>) -> nat
    decreases s.len(),
{
    if s.len() > 0 && is_space(s.first()) {
        1 + leading_spaces(s.drop_first())
    } else {
        0
    }
}

/// How many white-space characters `s` ends with.
pub open spec fn trailing_spaces(s: Seq<char>) -> nat
    decreases s.len(),
{
    if s.len() > 0 && is_space(s.last()) {
        1 + trailing_spaces(s.drop_last())
    } else {
        0
    }
}

/// `s` without its leading white space.
pub open spec fn trimmed_start(s: Seq<char>) -> Seq<char> {
    s.skip(leading_spaces(s) as int)
}

/// `s` without its trailing white space.
pub open spec fn trimmed_end(s: Seq<char>) -> Seq<char> {
    s.take(s.len() - trailing_spaces(s))
}

/// `s` without its leading and trailing white space.
pub open spec fn trimmed(s: Seq<char>) -> Seq<char> {
    trimmed_end(trimmed_start(s))
}

/// `leading_spaces(s)` is the one index `n` such that everything before `n`
/// is white space and `n` is the end of `s` or no white space.
pub proof fn lemma_leading_spaces(s: Seq<char>, n: int)
    requires
        0 <= n <= s.len(),
        forall|i: int| 0 <= i < n ==> is_space(#[trigger] s[i]),
        n < s.len() ==> !is_space(s[n]),
    ensures
        leading_spaces(s) == n,
    decreases n,
{
    if n > 0 {
        let t = s.drop_first();
        assert forall|i: int| 0 <= i < n - 1 implies is_space(#[trigger] t[i]) by {
            assert(t[i] == s[i + 1]);
        }
        lemma_leading_spaces(t, n - 1);
    }
}

/// `trailing_spaces(s)` is the one count `n` such that the last `n`
/// characters are white space and the one before them, if any, is not.
pub proof fn lemma_trailing_spaces(s: Seq<char>, n: int)
    requires
        0 <= n <= s.len(),
        forall|i: int| s.len() - n <= i < s.len() ==> is_space(#[trigger] s[i]),
        n < s.len() ==> !is_space(s[s.len() - n - 1]),
    ensures
        trailing_spaces(s) == n,
    decreases n,
{
    if n > 0 {
        let t = s.drop_last();
        assert forall|i: int| t.len() - (n - 1) <= i < t.len() implies is_space(
            #[trigger] t[i],
        ) by {
            assert(t[i] == s[i]);
        }
        lemma_trailing_spaces(t, n - 1);
    }
}

/// The bounds of the white space at the two ends of `s`.
pub proof fn lemma_spaces_bounds(s: Seq<char>)
    ensures
        leading_spaces(s) <= s.len(),
        trailing_spaces(s) <= s.len(),
        forall|i: int| 0 <= i < leading_spaces(s) ==> is_space(#[trigger] s[i]),
        leading_spaces(s) < s.len() ==> !is_space(s[leading_spaces(s) as int]),
        forall|i: int| s.len() - trailing_spaces(s) <= i < s.len() ==> is_space(#[trigger] s[i]),
        trailing_spaces(s) < s.len() ==> !is_space(s[s.len() - trailing_spaces(s) - 1]),
    decreases s.len(),
{
    if s.len() > 0 {
        let t = s.drop_first();
        lemma_spaces_bounds(t);
        if is_space(s.first()) {
            assert forall|i: int| 0 <= i < leading_spaces(s) implies is_space(#[trigger] s[i]) by {
                if i > 0 {
                    assert(s[i] == t[i - 1]);
                }
            }
            if leading_spaces(s) < s.len() {
                assert(s[leading_spaces(s) as int] == t[leading_spaces(t) as int]);
            }
        }
        let u = s.drop_last();
        lemma_spaces_bounds(u);
        if is_space(s.last()) {
            assert forall|i: int| s.len() - trailing_spaces(s) <= i < s.len() implies is_space(
                #[trigger] s[i],
            ) by {
                if i < s.len() - 1 {
                    assert(s[i] == u[i]);
                }
            }
            if trailing_spaces(s) < s.len() {
                assert(s[s.len() - trailing_spaces(s) - 1] == u[u.len() - trailing_spaces(u) - 1]);
            }
        }
    }
}

/// The leading white space of `s` removed.
pub fn trim_start(s: &[char]) -> (r: &[char])
    ensures
        r@ == trimmed_start(s@),
{
    let mut i: usize = 0;
    let mut scanning = true;
    while scanning && i < s.len()
        invariant
            i <= s.len(),
            forall|j: int| 0 <= j < i ==> is_space(#[trigger] s@[j]),
            !scanning ==> i < s.len() && !is_space(s@[i as int]),
        decreases s.len() - i + if scanning { 1int } else { 0int },
    {
        if is_space_char(s[i]) {
            i += 1;
        } else {
            scanning = false;
        }
    }
    proof {
        lemma_leading_spaces(s@, i as int);
    }
    slice_subrange(s, i, s.len())
}

/// The trailing white space of `s` removed.
pub fn trim_end(s: &[char]) -> (r: &[char])
    ensures
        r@ == trimmed_end(s@),
{
    let mut n: usize = s.len();
    let mut scanning = true;
    while scanning && n > 0
        invariant
            n <= s.len(),
            forall|j: int| n <= j < s.len() ==> is_space(#[trigger] s@[j]),
            !scanning ==> n > 0 && !is_space(s@[n - 1]),
        decreases n + if scanning { 1int } else { 0int },
    {
        if is_space_char(s[n - 1]) {
            n -= 1;
        } else {
            scanning = false;
        }
    }
    proof {
        lemma_trailing_spaces(s@, s.len() - n);
    }
    slice_subrange(s, 0, n)
}

/// The white space at both ends of `s` removed.
pub fn trim(s: &[char]) -> (r: &[char])
    ensures
        r@ == trimmed(s@),
{
    trim_end(trim_start(s))
}

/// How many characters of `s` stand before the first `c`: the index of the
/// first `c`, or the length of `s` where `c` does not occur.
pub open spec fn offset_of(s: Seq<char>, c: char) -> nat
    decreases s.len(),
{
    if s.len() > 0 && s.first() != c {
        1 + offset_of(s.drop_first(), c)
    } else {
        0
    }
}

/// `offset_of(s, c)` is the one index `n` such that `c` does not occur before
/// `n` and `n` is the end of `s` or holds `c`.
pub proof fn lemma_offset_of(s: Seq<char>, c: char, n: int)
    requires
        0 <= n <= s.len(),
        forall|i: int| 0 <= i < n ==> #[trigger] s[i] != c,
        n < s.len() ==> s[n] == c,
    ensures
        offset_of(s, c) == n,
    decreases n,
{
    if n > 0 {
        let t = s.drop_first();
        assert forall|i: int| 0 <= i < n - 1 implies #[trigger] t[i] != c by {
            assert(t[i] == s[i + 1]);
        }
        lemma_offset_of(t, c, n - 1);
    }
}

/// What stands before and at `offset_of(s, c)`.
pub proof fn lemma_offset_bounds(s: Seq<char>, c: char)
    ensures
        offset_of(s, c) <= s.len(),
        forall|i: int| 0 <= i < offset_of(s, c) ==> #[trigger] s[i] != c,
        offset_of(s, c) < s.len() ==> s[offset_of(s, c) as int] == c,
    decreases s.len(),
{
    if s.len() > 0 && s.first() != c {
        let t = s.drop_first();
        lemma_offset_bounds(t, c);
        assert forall|i: int| 0 <= i < offset_of(s, c) implies #[trigger] s[i] != c by {
            if i > 0 {
                assert(s[i] == t[i - 1]);
            }
        }
        if offset_of(s, c) < s.len() {
            assert(s[offset_of(s, c) as int] == t[offset_of(t, c) as int]);
        }
    }
}

/// The index of the first `c` in `s`, or the length of `s` if there is none.
pub fn find_char(s: &[char], c: char) -> (n: usize)
    ensures
        n == offset_of(s@, c),
        n <= s@.len(),
{
    let mut i: usize = 0;
    let mut scanning = true;
    while scanning && i < s.len()
        invariant
            i <= s.len(),
            forall|j: int| 0 <= j < i ==> #[trigger] s@[j] != c,
            !scanning ==> i < s.len() && s@[i as int] == c,
        decreases s.len() - i + if scanning { 1int } else { 0int },
    {
        if s[i] == c {
            scanning = false;
        } else {
            i += 1;
        }
    }
    proof {
        lemma_offset_of(s@, c, i as int);
    }
    i
}

/// The lines of `s`: the runs of characters between line feeds. A line feed
/// ends a line, so a text that ends in one has no empty line after it, and
/// the empty text has no line at all.
pub open spec fn lines(s: Seq<char>) -> Seq<Seq<char>>
    decreases s.len(),
{
    if s.len() == 0 {
        Seq::empty()
    } else {
        let n = offset_of(s, '\n') as int;
        if n < s.len() {
            seq![s.take(n)] + lines(s.skip(n + 1))
        } else {
            seq![s]
        }
    }
}

/// Splits the first line off `s`, which is not empty: returns that line,
/// without its line feed, and what follows the line feed.
pub(crate) fn split_line(s: &[char]) -> (r: (&[char], &[char]))
    requires
        s@.len() > 0,
    ensures
        lines(s@) == seq![r.0@] + lines(r.1@),
        lines(s@).first() == r.0@,
        lines(s@).drop_first() == lines(r.1@),
        r.1@.len() < s@.len(),
{
    let n = find_char(s, '\n');
    let line = slice_subrange(s, 0, n);
    let tail = if n < s.len() {
        slice_subrange(s, n + 1, s.len())
    } else {
        slice_subrange(s, n, s.len())
    };
    proof {
        assert(line@ == s@.take(n as int));
        if n < s.len() {
            assert(tail@ == s@.skip(n + 1));
        } else {
            assert(line@ == s@);
            assert(lines(tail@) =~= Seq::<Seq<char>>::empty());
            assert(seq![s@] + lines(tail@) =~= seq![s@]);
        }
        assert((seq![line@] + lines(tail@)).drop_first() =~= lines(tail@));
    }
    (line, tail)
}

/// Whether `s` begins with `pat`.
pub fn starts_with(s: &[char], pat: &[char]) -> (b: bool)
    ensures
        b == pat@.is_prefix_of(s@),
{
    if pat.len() > s.len() {
        return false;
    }
    let mut i: usize = 0;
    while i < pat.len()
        invariant
            i <= pat.len() <= s.len(),
            forall|j: int| 0 <= j < i ==> s@[j] == pat@[j],
        decreases pat.len() - i,
    {
        if s[i] != pat[i] {
            assert(s@.subrange(0, pat@.len() as int)[i as int] != pat@[i as int]);
            return false;
        }
        i += 1;
    }
    assert(pat@ =~= s@.subrange(0, pat@.len() as int));
    true
}

/// `s` with every occurrence of `pat` replaced by `with`, the occurrences
/// taken from the left and not overlapping. The empty pattern occurs
/// nowhere.
pub open spec fn replaced(s: Seq<char>, pat: Seq<char>, with: Seq<char>) -> Seq<char>
    decreases s.len(),
{
    if s.len() == 0 {
        s
    } else if pat.len() > 0 && pat.is_prefix_of(s) {
        with + replaced(s.skip(pat.len() as int), pat, with)
    } else {
        seq![s.first()] + replaced(s.drop_first(), pat, with)
    }
}

/// A copy of `s` in which `with` stands for every occurrence of `pat`.
pub fn replace(s: &[char], pat: &[char], with: &[char]) -> (r: Vec<char>)
    ensures
        r@ == replaced(s@, pat@, with@),
{
    let mut r: Vec<char> = Vec::new();
    let mut i: usize = 0;
    assert(s@.skip(0) == s@);
    assert(r@ + replaced(s@, pat@, with@) == replaced(s@, pat@, with@));
    while i < s.len()
        invariant
            i <= s.len(),
            replaced(s@, pat@, with@) == r@ + replaced(s@.skip(i as int), pat@, with@),
        decreases s.len() - i,
    {
        let rest = slice_subrange(s, i, s.len());
        assert(rest@ == s@.skip(i as int));
        if pat.len() > 0 && starts_with(rest, pat) {
            r.extend_from_slice(with);
            assert(rest@.skip(pat@.len() as int) == s@.skip(i + pat@.len()));
            i += pat.len();
        } else {
            r.push(s[i]);
            assert(rest@.drop_first() == s@.skip(i + 1));
            i += 1;
        }
    }
    r
}

/// The index of the first occurrence of `pat` in `s`, if it occurs.
pub open spec fn find(s: Seq<char>, pat: Seq<char>) -> Option<int>
    decreases s.len(),
{
    if pat.is_prefix_of(s) {
        Some(0)
    } else if s.len() == 0 {
        None
    } else {
        match find(s.drop_first(), pat) {
            Some(i) => Some(i + 1),
            None => None,
        }
    }
}

/// Whether `pat` occurs in `s` at index `i`.
pub open spec fn occurs_at(s: Seq<char>, pat: Seq<char>, i: int) -> bool {
    0 <= i <= s.len() && pat.is_prefix_of(s.skip(i))
}

/// `find(s, pat)` is the least index at which `pat` occurs in `s`, and is
/// `None` exactly where there is no such index.
pub proof fn lemma_find(s: Seq<char>, pat: Seq<char>)
    ensures
        match find(s, pat) {
            Some(n) => occurs_at(s, pat, n) && forall|i: int| 0 <= i < n ==> !occurs_at(s, pat, i),
            None => forall|i: int| !occurs_at(s, pat, i),
        },
    decreases s.len(),
{
    assert(s.skip(0) == s);
    if !pat.is_prefix_of(s) && s.len() > 0 {
        let t = s.drop_first();
        lemma_find(t, pat);
        assert forall|i: int| 0 < i <= s.len() implies s.skip(i) == t.skip(i - 1) by {
            assert(s.skip(i) =~= t.skip(i - 1));
        }
        match find(t, pat) {
            Some(m) => {
                assert forall|i: int| 0 <= i < m + 1 implies !occurs_at(s, pat, i) by {
                    if i > 0 {
                        assert(!occurs_at(t, pat, i - 1));
                    }
                }
            },
            None => {
                assert forall|i: int| !occurs_at(s, pat, i) by {
                    if 0 < i <= s.len() {
                        assert(!occurs_at(t, pat, i - 1));
                    }
                }
            },
        }
    }
}

/// The index of the first occurrence of `pat` in `s`, if it occurs.
pub fn find_sub(s: &[char], pat: &[char]) -> (r: Option<usize>)
    ensures
        match r {
            Some(n) => find(s@, pat@) == Some(n as int) && n + pat@.len() <= s@.len(),
            None => find(s@, pat@) is None,
        },
{
    let mut i: usize = 0;
    assert(s@.skip(0) == s@);
    while i < s.len()
        invariant
            i <= s.len(),
            match find(s@.skip(i as int), pat@) {
                Some(n) => find(s@, pat@) == Some(i + n),
                None => find(s@, pat@) is None,
            },
        decreases s.len() - i,
    {
        let rest = slice_subrange(s, i, s.len());
        assert(rest@ == s@.skip(i as int));
        if starts_with(rest, pat) {
            return Some(i);
        }
        assert(rest@.drop_first() == s@.skip(i + 1));
        i += 1;
    }
    let rest = slice_subrange(s, i, s.len());
    assert(rest@ == s@.skip(i as int));
    if starts_with(rest, pat) {
        Some(i)
    } else {
        None
    }
}

/// Whether `c` does not occur in `s`.
pub open spec fn free_of(s: Seq<char>, c: char) -> bool {
    forall|i: int| 0 <= i < s.len() ==> #[trigger] s[i] != c
}

/// Trimming cuts a range out of `s`: from the end of the leading white space
/// to the start of the trailing white space. The range is empty, or begins
/// and ends with a character that is no white space.
pub proof fn lemma_trimmed_range(s: Seq<char>) -> (r: (int, int))
    ensures
        0 <= r.0 <= r.1 <= s.len(),
        trimmed(s) == s.subrange(r.0, r.1),
        r.0 == leading_spaces(s),
        r.0 < r.1 ==> !is_space(s[r.0]) && !is_space(s[r.1 - 1]),
{
    lemma_spaces_bounds(s);
    let a = leading_spaces(s) as int;
    let t = trimmed_start(s);
    lemma_spaces_bounds(t);
    let b = s.len() - trailing_spaces(t);
    assert(trimmed(s) =~= s.subrange(a, b));
    if a < b {
        assert(t[t.len() - trailing_spaces(t) - 1] == s[b - 1]);
    }
    (a, b)
}

/// A text that neither begins nor ends with white space is its own trimmed
/// text.
pub proof fn lemma_trimmed_fixed(s: Seq<char>)
    requires
        s.len() > 0 ==> !is_space(s.first()) && !is_space(s.last()),
    ensures
        trimmed(s) == s,
{
    assert(trimmed_start(s) =~= s);
    assert(trimmed_end(s) =~= s);
}

/// A text that is its own trimmed text neither begins nor ends with white
/// space.
pub proof fn lemma_trimmed_ends(s: Seq<char>)
    requires
        trimmed(s) == s,
        s.len() > 0,
    ensures
        !is_space(s.first()),
        !is_space(s.last()),
{
    let (a, b) = lemma_trimmed_range(s);
    assert(s.subrange(a, b).len() == b - a);
}

/// Trimming a trimmed text changes nothing.
pub proof fn lemma_trimmed_idempotent(s: Seq<char>)
    ensures
        trimmed(trimmed(s)) == trimmed(s),
{
    let (a, b) = lemma_trimmed_range(s);
    let t = trimmed(s);
    if t.len() > 0 {
        assert(t.first() == s[a]);
        assert(t.last() == s[b - 1]);
    }
    lemma_trimmed_fixed(t);
}

/// A character that does not occur in a text occurs in no part of it, nor in
/// its trimmed text.
pub proof fn lemma_free_of_parts(s: Seq<char>, c: char, from: int, to: int)
    requires
        free_of(s, c),
        0 <= from <= to <= s.len(),
    ensures
        free_of(s.subrange(from, to), c),
        free_of(trimmed(s), c),
        free_of(trimmed(s.subrange(from, to)), c),
{
    let part = s.subrange(from, to);
    assert forall|i: int| 0 <= i < part.len() implies #[trigger] part[i] != c by {
        assert(part[i] == s[from + i]);
    }
    let (a, b) = lemma_trimmed_range(s);
    assert forall|i: int| 0 <= i < trimmed(s).len() implies #[trigger] trimmed(s)[i] != c by {
        assert(trimmed(s)[i] == s[a + i]);
    }
    let (a2, b2) = lemma_trimmed_range(part);
    assert forall|i: int| 0 <= i < trimmed(part).len() implies #[trigger] trimmed(part)[i]
        != c by {
        assert(trimmed(part)[i] == part[a2 + i]);
    }
}

/// No line holds a line feed.
pub proof fn lemma_lines_free_of_line_feed(s: Seq<char>)
    ensures
        forall|i: int| 0 <= i < lines(s).len() ==> free_of(#[trigger] lines(s)[i], '\n'),
    decreases s.len(),
{
    if s.len() > 0 {
        lemma_offset_bounds(s, '\n');
        let n = offset_of(s, '\n') as int;
        let head = s.take(n);
        assert forall|j: int| 0 <= j < head.len() implies #[trigger] head[j] != '\n' by {
            assert(head[j] == s[j]);
        }
        if n < s.len() {
            lemma_lines_free_of_line_feed(s.skip(n + 1));
            let tail = lines(s.skip(n + 1));
            assert forall|i: int| 0 <= i < lines(s).len() implies free_of(
                #[trigger] lines(s)[i],
                '\n',
            ) by {
                if i > 0 {
                    assert(lines(s)[i] == tail[i - 1]);
                }
            }
        } else {
            assert(head == s);
        }
    }
}

/// The text in which the lines `ls` stand one after the other, a line feed
/// between each two.
pub open spec fn joined(ls: Seq<Seq<char>>) -> Seq<char>
    decreases ls.len(),
{
    if ls.len() == 0 {
        Seq::empty()
    } else if ls.len() == 1 {
        ls.first()
    } else {
        ls.first() + seq!['\n'] + joined(ls.drop_first())
    }
}

/// The lines of a text joined from lines are those lines, where none of them
/// holds a line feed and the last one is not empty.
pub proof fn lemma_lines_of_joined(ls: Seq<Seq<char>>)
    requires
        forall|i: int| 0 <= i < ls.len() ==> free_of(#[trigger] ls[i], '\n'),
        ls.len() > 0 ==> ls.last().len() > 0,
    ensures
        lines(joined(ls)) == ls,
    decreases ls.len(),
{
    if ls.len() == 0 {
        assert(lines(joined(ls)) =~= ls);
    } else if ls.len() == 1 {
        let l = ls.first();
        assert(l == ls[0]);
        lemma_offset_of(l, '\n', l.len() as int);
        assert(lines(l) =~= ls);
    } else {
        let l = ls.first();
        assert(l == ls[0]);
        let rest = ls.drop_first();
        assert forall|i: int| 0 <= i < rest.len() implies free_of(#[trigger] rest[i], '\n') by {
            assert(rest[i] == ls[i + 1]);
        }
        assert(rest.last() == ls.last());
        lemma_lines_of_joined(rest);
        let text = joined(ls);
        assert forall|i: int| 0 <= i < l.len() implies #[trigger] text[i] != '\n' by {
            assert(text[i] == l[i]);
        }
        assert(text[l.len() as int] == '\n');
        lemma_offset_of(text, '\n', l.len() as int);
        assert(text.take(l.len() as int) =~= l);
        assert(text.skip(l.len() as int + 1) =~= joined(rest));
        assert(lines(text) =~= ls);
    }
}

/// The lines of two texts set side by side are the lines of the first and
/// then those of the second, where the first is empty or ends with a line
/// feed.
pub proof fn lemma_lines_concat(a: Seq<char>, b: Seq<char>)
    requires
        a.len() > 0 ==> a.last() == '\n',
    ensures
        lines(a + b) == lines(a) + lines(b),
    decreases a.len(),
{
    let whole = a + b;
    if a.len() == 0 {
        assert(whole =~= b);
        assert(lines(a) + lines(b) =~= lines(b));
    } else {
        lemma_offset_bounds(a, '\n');
        let n = offset_of(a, '\n') as int;
        assert(n < a.len()) by {
            if n == a.len() {
                assert(a[a.len() - 1] != '\n');
            }
        }
        assert forall|i: int| 0 <= i < n implies #[trigger] whole[i] != '\n' by {
            assert(whole[i] == a[i]);
        }
        assert(whole[n] == a[n]);
        lemma_offset_of(whole, '\n', n);
        let rest = a.skip(n + 1);
        if rest.len() > 0 {
            assert(rest.last() == a.last());
        }
        lemma_lines_concat(rest, b);
        assert(whole.take(n) =~= a.take(n));
        assert(whole.skip(n + 1) =~= rest + b);
        assert(lines(whole) =~= lines(a) + lines(b));
    }
}

/// Whether `pat` occurs nowhere across the seam of `a` and `b`: no occurrence
/// in `a + b` begins in `a` and ends in `b`.
pub open spec fn seam_free(a: Seq<char>, b: Seq<char>, pat: Seq<char>) -> bool {
    forall|i: int| 0 <= i < a.len() && i + pat.len() > a.len() ==> !pat.is_prefix_of(#[trigger] (a + b).skip(i))
}

/// Replacing in two texts set side by side is replacing in each, where the
/// pattern does not occur across their seam.
pub proof fn lemma_replaced_concat(a: Seq<char>, b: Seq<char>, pat: Seq<char>, with: Seq<char>)
    requires
        pat.len() > 0,
        seam_free(a, b, pat),
    ensures
        replaced(a + b, pat, with) == replaced(a, pat, with) + replaced(b, pat, with),
    decreases a.len(),
{
    let whole = a + b;
    if a.len() == 0 {
        assert(whole =~= b);
        assert(replaced(a, pat, with) + replaced(b, pat, with) =~= replaced(b, pat, with));
    } else {
        assert(whole.skip(0) =~= whole);
        if pat.is_prefix_of(whole) {
            assert(pat.len() <= a.len());
            assert(pat =~= a.subrange(0, pat.len() as int)) by {
                assert(pat =~= whole.subrange(0, pat.len() as int));
            }
            let rest = a.skip(pat.len() as int);
            assert(whole.skip(pat.len() as int) =~= rest + b);
            assert forall|i: int| 0 <= i < rest.len() && i + pat.len() > rest.len() implies
                !pat.is_prefix_of(#[trigger] (rest + b).skip(i)) by {
                assert((rest + b).skip(i) =~= whole.skip(i + pat.len()));
            }
            lemma_replaced_concat(rest, b, pat, with);
            assert(with + (replaced(rest, pat, with) + replaced(b, pat, with)) =~= (with
                + replaced(rest, pat, with)) + replaced(b, pat, with));
        } else {
            assert(!pat.is_prefix_of(a)) by {
                if pat.is_prefix_of(a) {
                    assert(pat =~= whole.subrange(0, pat.len() as int));
                }
            }
            let rest = a.drop_first();
            assert(whole.drop_first() =~= rest + b);
            assert forall|i: int| 0 <= i < rest.len() && i + pat.len() > rest.len() implies
                !pat.is_prefix_of(#[trigger] (rest + b).skip(i)) by {
                assert((rest + b).skip(i) =~= whole.skip(i + 1));
            }
            lemma_replaced_concat(rest, b, pat, with);
            assert(seq![a.first()] + (replaced(rest, pat, with) + replaced(b, pat, with)) =~= (
            seq![a.first()] + replaced(rest, pat, with)) + replaced(b, pat, with));
        }
    }
}

/// Replacing changes nothing in a text in which the last character of the
/// pattern does not occur.
pub proof fn lemma_replaced_without(s: Seq<char>, pat: Seq<char>, with: Seq<char>)
    requires
        pat.len() > 0,
        free_of(s, pat.last()),
    ensures
        replaced(s, pat, with) == s,
    decreases s.len(),
{
    if s.len() > 0 {
        if pat.is_prefix_of(s) {
            assert(s.subrange(0, pat.len() as int)[pat.len() - 1] == pat.last());
            assert(s[pat.len() - 1] == pat.last());
        }
        let rest = s.drop_first();
        assert forall|i: int| 0 <= i < rest.len() implies #[trigger] rest[i] != pat.last() by {
            assert(rest[i] == s[i + 1]);
        }
        lemma_replaced_without(rest, pat, with);
        assert(seq![s.first()] + rest =~= s);
    }
}

} // verus!
