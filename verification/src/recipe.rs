//! The raw mapping of a recipe: its keys in the order in which they first
//! occur, each with the ordered list of its values.

use vstd::prelude::*;
use vstd::string::StringExecFns;

verus! {

/// What an entry is: a key and the values declared for it, in source order.
pub struct EntryView {
    pub key: Seq<char>,
    pub values: Seq<Seq<char>>,
}

/// One entry of a recipe: a key and the values declared for it.
#[derive(Debug)]
pub struct Entry {
    pub key: String,
    pub values: Vec<String>,
}

impl View for Entry {
    type V = EntryView;

    open spec fn view(&self) -> EntryView {
        EntryView { key: self.key@, values: self.values.deep_view() }
    }
}

/// The entries of `es`, each by its view.
pub open spec fn entry_views(es: Seq<Entry>) -> Seq<EntryView> {
    Seq::new(es.len(), |i: int| es[i]@)
}

/// How many entries stand before the first one with the key `key`: its
/// index, or the number of entries where none has that key.
pub open spec fn key_index(entries: Seq<EntryView>, key: Seq<char>) -> nat
    decreases entries.len(),
{
    if entries.len() > 0 && entries.first().key != key {
        1 + key_index(entries.drop_first(), key)
    } else {
        0
    }
}

/// Whether an entry of `entries` has the key `key`.
pub open spec fn has_key(entries: Seq<EntryView>, key: Seq<char>) -> bool {
    key_index(entries, key) < entries.len()
}

/// The values that `entries` holds for `key`.
pub open spec fn lookup(entries: Seq<EntryView>, key: Seq<char>) -> Option<Seq<Seq<char>>> {
    if has_key(entries, key) {
        Some(entries[key_index(entries, key) as int].values)
    } else {
        None
    }
}

/// No two entries have the same key.
pub open spec fn distinct_keys(entries: Seq<EntryView>) -> bool {
    forall|i: int, j: int|
        0 <= i < j < entries.len() ==> (#[trigger] entries[i]).key != (#[trigger] entries[j]).key
}

/// `entries` after `key` was declared with `values`: an entry with that key
/// keeps its place and loses its old values, a new key goes to the end.
pub open spec fn inserted(
    entries: Seq<EntryView>,
    key: Seq<char>,
    values: Seq<Seq<char>>,
) -> Seq<EntryView> {
    let i = key_index(entries, key) as int;
    if i < entries.len() {
        entries.update(i, EntryView { key, values })
    } else {
        entries.push(EntryView { key, values })
    }
}

/// `entries` after `value` was added to the values of `key`. Nothing changes
/// where no entry has that key.
pub open spec fn appended(entries: Seq<EntryView>, key: Seq<char>, value: Seq<char>) -> Seq<
    EntryView,
> {
    let i = key_index(entries, key) as int;
    if i < entries.len() {
        entries.update(i, EntryView { key, values: entries[i].values.push(value) })
    } else {
        entries
    }
}

/// `key_index(entries, key)` is the one index `n` such that no entry before
/// `n` has the key and `n` is the end of `entries` or has it.
pub proof fn lemma_key_index(entries: Seq<EntryView>, key: Seq<char>, n: int)
    requires
        0 <= n <= entries.len(),
        forall|i: int| 0 <= i < n ==> (#[trigger] entries[i]).key != key,
        n < entries.len() ==> entries[n].key == key,
    ensures
        key_index(entries, key) == n,
    decreases n,
{
    if n > 0 {
        let t = entries.drop_first();
        assert forall|i: int| 0 <= i < n - 1 implies (#[trigger] t[i]).key != key by {
            assert(t[i] == entries[i + 1]);
        }
        lemma_key_index(t, key, n - 1);
    }
}

/// What stands before and at `key_index(entries, key)`.
pub proof fn lemma_key_index_bounds(entries: Seq<EntryView>, key: Seq<char>)
    ensures
        key_index(entries, key) <= entries.len(),
        forall|i: int| 0 <= i < key_index(entries, key) ==> (#[trigger] entries[i]).key != key,
        has_key(entries, key) ==> entries[key_index(entries, key) as int].key == key,
    decreases entries.len(),
{
    if entries.len() > 0 && entries.first().key != key {
        let t = entries.drop_first();
        lemma_key_index_bounds(t, key);
        assert forall|i: int| 0 <= i < key_index(entries, key) implies (
        #[trigger] entries[i]).key != key by {
            if i > 0 {
                assert(entries[i] == t[i - 1]);
            }
        }
        if has_key(entries, key) {
            assert(entries[key_index(entries, key) as int] == t[key_index(t, key) as int]);
        }
    }
}

/// Among distinct keys, the entry at index `i` is the one found by its key.
pub proof fn lemma_key_index_of_entry(entries: Seq<EntryView>, i: int)
    requires
        distinct_keys(entries),
        0 <= i < entries.len(),
    ensures
        key_index(entries, entries[i].key) == i,
{
    lemma_key_index(entries, entries[i].key, i);
}

/// Declaring a key keeps the keys distinct, and leaves the entry of the key
/// where [`key_index`] finds it.
pub proof fn lemma_inserted(entries: Seq<EntryView>, key: Seq<char>, values: Seq<Seq<char>>)
    requires
        distinct_keys(entries),
    ensures
        distinct_keys(inserted(entries, key, values)),
        key_index(inserted(entries, key, values), key) == key_index(entries, key),
        has_key(inserted(entries, key, values), key),
        lookup(inserted(entries, key, values), key) == Some(values),
{
    lemma_key_index_bounds(entries, key);
    let n = key_index(entries, key) as int;
    let after = inserted(entries, key, values);
    assert forall|i: int| 0 <= i < n implies (#[trigger] after[i]).key != key by {
        assert(after[i] == entries[i]);
    }
    lemma_key_index(after, key, n);
    assert forall|i: int, j: int| 0 <= i < j < after.len() implies (#[trigger] after[i]).key != (
    #[trigger] after[j]).key by {
        if j < entries.len() {
            assert(after[i].key == entries[i].key);
            assert(after[j].key == entries[j].key);
        } else {
            assert(after[i] == entries[i]);
        }
    }
}

/// Adding a value to a key keeps every key in its place.
pub proof fn lemma_appended(entries: Seq<EntryView>, key: Seq<char>, value: Seq<char>)
    requires
        distinct_keys(entries),
    ensures
        distinct_keys(appended(entries, key, value)),
        appended(entries, key, value).len() == entries.len(),
        forall|i: int|
            0 <= i < entries.len() ==> (#[trigger] appended(entries, key, value)[i]).key
                == entries[i].key,
{
    lemma_key_index_bounds(entries, key);
    let after = appended(entries, key, value);
    assert forall|i: int| 0 <= i < entries.len() implies (#[trigger] after[i]).key
        == entries[i].key by {}
    assert forall|i: int, j: int| 0 <= i < j < after.len() implies (#[trigger] after[i]).key != (
    #[trigger] after[j]).key by {
        assert(after[i].key == entries[i].key);
        assert(after[j].key == entries[j].key);
    }
}

/// Where a key is found depends on the keys alone.
pub proof fn lemma_key_index_by_keys(a: Seq<EntryView>, b: Seq<EntryView>, key: Seq<char>)
    requires
        a.len() == b.len(),
        forall|i: int| 0 <= i < a.len() ==> (#[trigger] a[i]).key == b[i].key,
    ensures
        key_index(a, key) == key_index(b, key),
{
    lemma_key_index_bounds(a, key);
    let n = key_index(a, key) as int;
    assert forall|i: int| 0 <= i < n implies (#[trigger] b[i]).key != key by {
        assert(a[i].key != key);
    }
    if n < a.len() {
        assert(a[n].key == b[n].key);
    }
    lemma_key_index(b, key, n);
}

/// What a mapping holds for a key after a declaration: the declared values
/// for the declared key, and for any other key what it held before.
pub proof fn lemma_lookup_inserted(
    entries: Seq<EntryView>,
    key: Seq<char>,
    values: Seq<Seq<char>>,
    other: Seq<char>,
)
    ensures
        lookup(inserted(entries, key, values), other) == if other == key {
            Some(values)
        } else {
            lookup(entries, other)
        },
{
    let after = inserted(entries, key, values);
    lemma_key_index_bounds(entries, key);
    lemma_key_index_bounds(entries, other);
    let n = key_index(entries, key) as int;
    let m = key_index(entries, other) as int;
    assert forall|i: int| 0 <= i < entries.len() implies (#[trigger] after[i]).key
        == entries[i].key by {}
    if other == key {
        assert forall|i: int| 0 <= i < n implies (#[trigger] after[i]).key != key by {
            assert(entries[i].key != key);
        }
        lemma_key_index(after, key, n);
    } else {
        assert forall|i: int| 0 <= i < m implies (#[trigger] after[i]).key != other by {
            assert(entries[i].key != other);
        }
        if m < entries.len() {
            assert(after[m] == entries[m]);
            lemma_key_index(after, other, m);
        } else {
            assert forall|i: int| 0 <= i < after.len() implies (#[trigger] after[i]).key
                != other by {
                if i < entries.len() {
                    assert(entries[i].key != other);
                }
            }
            lemma_key_index(after, other, after.len() as int);
        }
    }
}

/// What a mapping holds for a key after a value was added: one value more
/// for the key it was added to, and for any other key what it held before.
pub proof fn lemma_lookup_appended(
    entries: Seq<EntryView>,
    key: Seq<char>,
    value: Seq<char>,
    other: Seq<char>,
)
    ensures
        lookup(appended(entries, key, value), other) == if other == key && has_key(entries, key) {
            Some(lookup(entries, key)->0.push(value))
        } else {
            lookup(entries, other)
        },
        has_key(appended(entries, key, value), other) == has_key(entries, other),
{
    let after = appended(entries, key, value);
    lemma_key_index_bounds(entries, key);
    lemma_key_index_bounds(entries, other);
    assert forall|i: int| 0 <= i < entries.len() implies (#[trigger] entries[i]).key
        == after[i].key by {}
    lemma_key_index_by_keys(entries, after, other);
}

/// The index of the entry with the key `key`, if there is one.
pub(crate) fn find_key(entries: &Vec<Entry>, key: &String) -> (r: Option<usize>)
    ensures
        match r {
            Some(i) => has_key(entry_views(entries@), key@) && i == key_index(
                entry_views(entries@),
                key@,
            ),
            None => !has_key(entry_views(entries@), key@),
        },
{
    let ghost views = entry_views(entries@);
    let mut i: usize = 0;
    while i < entries.len()
        invariant
            i <= entries.len(),
            views == entry_views(entries@),
            forall|j: int| 0 <= j < i ==> (#[trigger] views[j]).key != key@,
        decreases entries.len() - i,
    {
        if entries[i].key == *key {
            proof {
                lemma_key_index(views, key@, i as int);
            }
            return Some(i);
        }
        i += 1;
    }
    proof {
        lemma_key_index(views, key@, i as int);
    }
    None
}

/// Declares `key` with `values` in `entries`, in place of what was declared
/// for it before. Returns the index of its entry.
pub(crate) fn insert_entry(entries: &mut Vec<Entry>, key: String, values: Vec<String>) -> (i: usize)
    requires
        distinct_keys(entry_views(old(entries)@)),
    ensures
        entry_views(final(entries)@) == inserted(
            entry_views(old(entries)@),
            key@,
            values.deep_view(),
        ),
        distinct_keys(entry_views(final(entries)@)),
        i == key_index(entry_views(old(entries)@), key@),
        i < final(entries)@.len(),
        entry_views(final(entries)@)[i as int].key == key@,
{
    let ghost before = entry_views(entries@);
    proof {
        lemma_inserted(before, key@, values.deep_view());
        lemma_key_index_bounds(before, key@);
    }
    let found = find_key(entries, &key);
    let entry = Entry { key, values };
    match found {
        Some(i) => {
            entries.set(i, entry);
            assert(entry_views(entries@) =~= inserted(
                before,
                entry.key@,
                entry.values.deep_view(),
            ));
            i
        },
        None => {
            let i = entries.len();
            entries.push(entry);
            assert(entry_views(entries@) =~= inserted(
                before,
                entry.key@,
                entry.values.deep_view(),
            ));
            i
        },
    }
}

/// Adds `value` to the values of the entry at index `i`.
pub(crate) fn push_value(entries: &mut Vec<Entry>, i: usize, value: String)
    requires
        i < old(entries)@.len(),
        distinct_keys(entry_views(old(entries)@)),
    ensures
        entry_views(final(entries)@) == appended(
            entry_views(old(entries)@),
            old(entries)@[i as int].key@,
            value@,
        ),
        distinct_keys(entry_views(final(entries)@)),
        final(entries)@.len() == old(entries)@.len(),
        final(entries)@[i as int].key@ == old(entries)@[i as int].key@,
{
    let ghost before = entry_views(entries@);
    proof {
        lemma_key_index_of_entry(before, i as int);
        lemma_appended(before, before[i as int].key, value@);
    }
    let ghost old_values = entries@[i as int].values.deep_view();
    entries[i].values.push(value);
    assert(entries@[i as int].values.deep_view() =~= old_values.push(value@));
    assert(entry_views(entries@) =~= appended(before, before[i as int].key, value@));
}

/// The raw mapping of a recipe. Its view is the sequence of its entries, in
/// the order in which their keys were first declared; no key occurs twice.
#[derive(Debug)]
pub struct RecipeMap {
    entries: Vec<Entry>,
}

impl View for RecipeMap {
    type V = Seq<EntryView>;

    closed spec fn view(&self) -> Seq<EntryView> {
        entry_views(self.entries@)
    }
}

impl RecipeMap {
    #[verifier::type_invariant]
    spec fn keys_are_distinct(self) -> bool {
        distinct_keys(entry_views(self.entries@))
    }

    /// The mapping without entries.
    pub fn new() -> (r: RecipeMap)
        ensures
            r@ == Seq::<EntryView>::empty(),
    {
        let r = RecipeMap { entries: Vec::new() };
        assert(r@ =~= Seq::<EntryView>::empty());
        r
    }

    /// The mapping that holds `entries`, whose keys are distinct.
    pub(crate) fn from_entries(entries: Vec<Entry>) -> (r: RecipeMap)
        requires
            distinct_keys(entry_views(entries@)),
        ensures
            r@ == entry_views(entries@),
    {
        RecipeMap { entries }
    }

    /// The entries, in order.
    pub fn into_entries(self) -> (r: Vec<Entry>)
        ensures
            entry_views(r@) == self@,
            distinct_keys(entry_views(r@)),
    {
        proof {
            use_type_invariant(&self);
        }
        self.entries
    }

    /// The number of entries.
    pub fn len(&self) -> (n: usize)
        ensures
            n == self@.len(),
    {
        self.entries.len()
    }

    /// The entry at index `i`, if there are that many.
    pub fn entry(&self, i: usize) -> (r: Option<&Entry>)
        ensures
            match r {
                Some(e) => i < self@.len() && e@ == self@[i as int],
                None => i >= self@.len(),
            },
    {
        if i < self.entries.len() {
            Some(&self.entries[i])
        } else {
            None
        }
    }

    /// The index of the entry with the key `key`, if there is one.
    pub fn position(&self, key: &str) -> (r: Option<usize>)
        ensures
            match r {
                Some(i) => has_key(self@, key@) && i == key_index(self@, key@),
                None => !has_key(self@, key@),
            },
    {
        let wanted = String::from_str(key);
        find_key(&self.entries, &wanted)
    }

    /// The values declared for `key`, if it was declared.
    pub fn get(&self, key: &str) -> (r: Option<&Vec<String>>)
        ensures
            match r {
                Some(values) => lookup(self@, key@) == Some(values.deep_view()),
                None => lookup(self@, key@) is None,
            },
    {
        match self.position(key) {
            Some(i) => Some(&self.entries[i].values),
            None => None,
        }
    }

    /// Declares `key` with `values`, in place of what was declared for it
    /// before.
    pub fn insert(&mut self, key: String, values: Vec<String>)
        ensures
            final(self)@ == inserted(old(self)@, key@, values.deep_view()),
    {
        let mut taken = RecipeMap::new();
        core::mem::swap(self, &mut taken);
        let mut entries = taken.into_entries();
        insert_entry(&mut entries, key, values);
        *self = RecipeMap { entries };
    }
}

} // verus!
