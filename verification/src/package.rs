//! The package mapper: from the raw mapping of a recipe to the typed
//! description of the package.

use crate::number::{number_of, parse_integer};
use crate::recipe::{
    distinct_keys, entry_views, key_index, lemma_key_index, lemma_key_index_bounds, lookup, Entry,
    EntryView, RecipeMap,
};
use crate::text::chars_of;
use vstd::prelude::*;
use vstd::string::StringExecFns;

verus! {

/// Why a mapping is no package description.
#[derive(Clone, Copy, Debug, PartialEq, Eq, Structural)]
pub enum PackageError {
    /// A key that takes one value was declared without any.
    MissingValue,
    /// The value of a numeric key is no decimal integer, or none that fits.
    InvalidNumber,
}

/// The fields of a package description, each named by one key of a recipe.
#[derive(Clone, Copy, Debug, PartialEq, Eq, Structural)]
pub enum Field {
    Name,
    Version,
    Release,
    Source,
    License,
    Component,
    Summary,
    Description,
    Builddeps,
    Setup,
    Build,
    Install,
}

/// The field that the key `key` names, if it names one.
pub open spec fn field_of(key: Seq<char>) -> Option<Field> {
    if key == "name"@ {
        Some(Field::Name)
    } else if key == "version"@ {
        Some(Field::Version)
    } else if key == "release"@ {
        Some(Field::Release)
    } else if key == "source"@ {
        Some(Field::Source)
    } else if key == "license"@ {
        Some(Field::License)
    } else if key == "component"@ {
        Some(Field::Component)
    } else if key == "summary"@ {
        Some(Field::Summary)
    } else if key == "description"@ {
        Some(Field::Description)
    } else if key == "builddeps"@ {
        Some(Field::Builddeps)
    } else if key == "setup"@ {
        Some(Field::Setup)
    } else if key == "build"@ {
        Some(Field::Build)
    } else if key == "install"@ {
        Some(Field::Install)
    } else {
        None
    }
}

/// The key that names the field `field`.
pub open spec fn key_of(field: Field) -> Seq<char> {
    match field {
        Field::Name => "name"@,
        Field::Version => "version"@,
        Field::Release => "release"@,
        Field::Source => "source"@,
        Field::License => "license"@,
        Field::Component => "component"@,
        Field::Summary => "summary"@,
        Field::Description => "description"@,
        Field::Builddeps => "builddeps"@,
        Field::Setup => "setup"@,
        Field::Build => "build"@,
        Field::Install => "install"@,
    }
}

/// Each field is named by its own key and by no other.
pub proof fn lemma_field_keys()
    ensures
        forall|field: Field| #[trigger] field_of(key_of(field)) == Some(field),
        forall|key: Seq<char>|
            (#[trigger] field_of(key)) is Some ==> key == key_of(field_of(key)->0),
{
    reveal_strlit("name");
    reveal_strlit("version");
    reveal_strlit("release");
    reveal_strlit("source");
    reveal_strlit("license");
    reveal_strlit("component");
    reveal_strlit("summary");
    reveal_strlit("description");
    reveal_strlit("builddeps");
    reveal_strlit("setup");
    reveal_strlit("build");
    reveal_strlit("install");
    assert("name"@.len() == 4);
    assert("version"@.len() == 7);
    assert("release"@.len() == 7);
    assert("source"@.len() == 6);
    assert("license"@.len() == 7);
    assert("component"@.len() == 9);
    assert("summary"@.len() == 7);
    assert("description"@.len() == 11);
    assert("builddeps"@.len() == 9);
    assert("setup"@.len() == 5);
    assert("build"@.len() == 5);
    assert("install"@.len() == 7);
    assert("setup"@[0] != "build"@[0]);
    assert("version"@[0] != "license"@[0]);
    assert("release"@[0] != "license"@[0]);
    assert("license"@[0] != "summary"@[0]);
    assert("license"@[0] != "install"@[0]);
    assert("version"@[0] != "release"@[0]);
    assert("version"@[0] != "summary"@[0]);
    assert("version"@[0] != "install"@[0]);
    assert("release"@[0] != "summary"@[0]);
    assert("release"@[0] != "install"@[0]);
    assert("summary"@[0] != "install"@[0]);
    assert("component"@[0] != "builddeps"@[0]);
    assert forall|field: Field| #[trigger] field_of(key_of(field)) == Some(field) by {
        match field {
            Field::Name => {},
            Field::Version => {},
            Field::Release => {},
            Field::Source => {},
            Field::License => {},
            Field::Component => {},
            Field::Summary => {},
            Field::Description => {},
            Field::Builddeps => {},
            Field::Setup => {},
            Field::Build => {},
            Field::Install => {},
        }
    }
}

/// Decides [`field_of`].
pub fn field_for(key: &String) -> (r: Option<Field>)
    ensures
        r == field_of(key@),
{
    if *key == String::from_str("name") {
        Some(Field::Name)
    } else if *key == String::from_str("version") {
        Some(Field::Version)
    } else if *key == String::from_str("release") {
        Some(Field::Release)
    } else if *key == String::from_str("source") {
        Some(Field::Source)
    } else if *key == String::from_str("license") {
        Some(Field::License)
    } else if *key == String::from_str("component") {
        Some(Field::Component)
    } else if *key == String::from_str("summary") {
        Some(Field::Summary)
    } else if *key == String::from_str("description") {
        Some(Field::Description)
    } else if *key == String::from_str("builddeps") {
        Some(Field::Builddeps)
    } else if *key == String::from_str("setup") {
        Some(Field::Setup)
    } else if *key == String::from_str("build") {
        Some(Field::Build)
    } else if *key == String::from_str("install") {
        Some(Field::Install)
    } else {
        None
    }
}

/// What a package description holds. A field is `None` until its key is
/// declared.
pub struct PackageView {
    pub name: Option<Seq<char>>,
    pub version: Option<Seq<char>>,
    pub release: Option<i64>,
    pub source: Option<Seq<Seq<char>>>,
    pub license: Option<Seq<Seq<char>>>,
    pub component: Option<Seq<char>>,
    pub summary: Option<Seq<char>>,
    pub description: Option<Seq<char>>,
    pub builddeps: Option<Seq<Seq<char>>>,
    pub setup: Option<Seq<Seq<char>>>,
    pub build: Option<Seq<Seq<char>>>,
    pub install: Option<Seq<Seq<char>>>,
}

/// The typed description of a package.
#[derive(Debug)]
pub struct Package {
    pub name: Option<String>,
    pub version: Option<String>,
    pub release: Option<i64>,
    pub source: Option<Vec<String>>,
    pub license: Option<Vec<String>>,
    pub component: Option<String>,
    pub summary: Option<String>,
    pub description: Option<String>,
    pub builddeps: Option<Vec<String>>,
    pub setup: Option<Vec<String>>,
    pub build: Option<Vec<String>>,
    pub install: Option<Vec<String>>,
}

/// The characters of a text field.
pub open spec fn text_view(field: Option<String>) -> Option<Seq<char>> {
    match field {
        Some(s) => Some(s@),
        None => None,
    }
}

/// The texts of a list field.
pub open spec fn list_view(field: Option<Vec<String>>) -> Option<Seq<Seq<char>>> {
    match field {
        Some(v) => Some(v.deep_view()),
        None => None,
    }
}

impl View for Package {
    type V = PackageView;

    open spec fn view(&self) -> PackageView {
        PackageView {
            name: text_view(self.name),
            version: text_view(self.version),
            release: self.release,
            source: list_view(self.source),
            license: list_view(self.license),
            component: text_view(self.component),
            summary: text_view(self.summary),
            description: text_view(self.description),
            builddeps: list_view(self.builddeps),
            setup: list_view(self.setup),
            build: list_view(self.build),
            install: list_view(self.install),
        }
    }
}

/// The description in which no field is set.
pub open spec fn empty_package() -> PackageView {
    PackageView {
        name: None,
        version: None,
        release: None,
        source: None,
        license: None,
        component: None,
        summary: None,
        description: None,
        builddeps: None,
        setup: None,
        build: None,
        install: None,
    }
}

impl Package {
    /// The description in which no field is set.
    pub fn new() -> (pkg: Package)
        ensures
            pkg@ == empty_package(),
    {
        Package {
            name: None,
            version: None,
            release: None,
            source: None,
            license: None,
            component: None,
            summary: None,
            description: None,
            builddeps: None,
            setup: None,
            build: None,
            install: None,
        }
    }
}

impl Default for Package {
    fn default() -> (pkg: Package)
        ensures
            pkg@ == empty_package(),
    {
        Package::new()
    }
}

/// Whether `field` holds one text: the first value declared for its key.
pub open spec fn is_text(field: Field) -> bool {
    field == Field::Name || field == Field::Version || field == Field::Component || field
        == Field::Summary || field == Field::Description
}

/// The error in the entry `e`, if it has one: a key that takes one value
/// stands without any, or the value of `release` is no number.
pub open spec fn entry_error(e: EntryView) -> Option<PackageError> {
    match field_of(e.key) {
        Some(field) => if is_text(field) || field == Field::Release {
            if e.values.len() == 0 {
                Some(PackageError::MissingValue)
            } else if field == Field::Release && number_of(e.values[0]) is None {
                Some(PackageError::InvalidNumber)
            } else {
                None
            }
        } else {
            None
        },
        None => None,
    }
}

/// The error of the first entry that has one.
pub open spec fn first_error(entries: Seq<EntryView>) -> Option<PackageError>
    decreases entries.len(),
{
    if entries.len() == 0 {
        None
    } else {
        match entry_error(entries.first()) {
            Some(e) => Some(e),
            None => first_error(entries.drop_first()),
        }
    }
}

/// The keys of `entries` that name no field, in order.
pub open spec fn unknown_keys(entries: Seq<EntryView>) -> Seq<Seq<char>>
    decreases entries.len(),
{
    if entries.len() == 0 {
        Seq::empty()
    } else if field_of(entries.first().key) is None {
        seq![entries.first().key] + unknown_keys(entries.drop_first())
    } else {
        unknown_keys(entries.drop_first())
    }
}

/// A text field after `entries` were mapped: the first value of `key` where
/// it is declared with one, else what the field held before.
pub open spec fn text_field(entries: Seq<EntryView>, key: Seq<char>, before: Option<Seq<char>>)
    -> Option<Seq<char>> {
    match lookup(entries, key) {
        Some(values) => if values.len() > 0 {
            Some(values[0])
        } else {
            before
        },
        None => before,
    }
}

/// A numeric field after `entries` were mapped: the number that the first
/// value of `key` writes, else what the field held before.
pub open spec fn number_field(entries: Seq<EntryView>, key: Seq<char>, before: Option<i64>)
    -> Option<i64> {
    match lookup(entries, key) {
        Some(values) => if values.len() > 0 && number_of(values[0]) is Some {
            number_of(values[0])
        } else {
            before
        },
        None => before,
    }
}

/// A list field after `entries` were mapped: all the values of `key` where it
/// is declared, else what the field held before.
pub open spec fn list_field(
    entries: Seq<EntryView>,
    key: Seq<char>,
    before: Option<Seq<Seq<char>>>,
) -> Option<Seq<Seq<char>>> {
    match lookup(entries, key) {
        Some(values) => Some(values),
        None => before,
    }
}

/// The description `pkg` after `entries` were mapped onto it. Each field goes
/// by its own key; keys that name no field change nothing.
pub open spec fn mapped(pkg: PackageView, entries: Seq<EntryView>) -> PackageView {
    PackageView {
        name: text_field(entries, "name"@, pkg.name),
        version: text_field(entries, "version"@, pkg.version),
        release: number_field(entries, "release"@, pkg.release),
        source: list_field(entries, "source"@, pkg.source),
        license: list_field(entries, "license"@, pkg.license),
        component: text_field(entries, "component"@, pkg.component),
        summary: text_field(entries, "summary"@, pkg.summary),
        description: text_field(entries, "description"@, pkg.description),
        builddeps: list_field(entries, "builddeps"@, pkg.builddeps),
        setup: list_field(entries, "setup"@, pkg.setup),
        build: list_field(entries, "build"@, pkg.build),
        install: list_field(entries, "install"@, pkg.install),
    }
}

/// The description `pkg` after the one entry `e`, which has no error, was
/// mapped onto it.
pub open spec fn assigned(pkg: PackageView, e: EntryView) -> PackageView {
    match field_of(e.key) {
        Some(Field::Name) => PackageView { name: Some(e.values[0]), ..pkg },
        Some(Field::Version) => PackageView { version: Some(e.values[0]), ..pkg },
        Some(Field::Release) => PackageView { release: number_of(e.values[0]), ..pkg },
        Some(Field::Source) => PackageView { source: Some(e.values), ..pkg },
        Some(Field::License) => PackageView { license: Some(e.values), ..pkg },
        Some(Field::Component) => PackageView { component: Some(e.values[0]), ..pkg },
        Some(Field::Summary) => PackageView { summary: Some(e.values[0]), ..pkg },
        Some(Field::Description) => PackageView { description: Some(e.values[0]), ..pkg },
        Some(Field::Builddeps) => PackageView { builddeps: Some(e.values), ..pkg },
        Some(Field::Setup) => PackageView { setup: Some(e.values), ..pkg },
        Some(Field::Build) => PackageView { build: Some(e.values), ..pkg },
        Some(Field::Install) => PackageView { install: Some(e.values), ..pkg },
        None => pkg,
    }
}

/// Among distinct keys, what a mapping holds for a key after one more entry:
/// the values of that entry where it has the key, else what it held before.
pub proof fn lemma_lookup_push(entries: Seq<EntryView>, e: EntryView, key: Seq<char>)
    requires
        distinct_keys(entries.push(e)),
    ensures
        lookup(entries.push(e), key) == if e.key == key {
            Some(e.values)
        } else {
            lookup(entries, key)
        },
{
    let longer = entries.push(e);
    lemma_key_index_bounds(entries, key);
    let n = key_index(entries, key) as int;
    if n < entries.len() {
        assert forall|i: int| 0 <= i < n implies (#[trigger] longer[i]).key != key by {
            assert(longer[i] == entries[i]);
        }
        assert(longer[n] == entries[n]);
        lemma_key_index(longer, key, n);
        assert(longer[n].key != longer[entries.len() as int].key);
    } else {
        assert forall|i: int| 0 <= i < entries.len() implies (#[trigger] longer[i]).key != key by {
            assert(longer[i] == entries[i]);
        }
        if e.key == key {
            lemma_key_index(longer, key, entries.len() as int);
        } else {
            lemma_key_index(longer, key, longer.len() as int);
        }
    }
}

/// A key is the key of a field exactly where it names that field.
pub proof fn lemma_key_names_field(key: Seq<char>)
    ensures
        (key == "name"@) <==> field_of(key) == Some(Field::Name),
        (key == "version"@) <==> field_of(key) == Some(Field::Version),
        (key == "release"@) <==> field_of(key) == Some(Field::Release),
        (key == "source"@) <==> field_of(key) == Some(Field::Source),
        (key == "license"@) <==> field_of(key) == Some(Field::License),
        (key == "component"@) <==> field_of(key) == Some(Field::Component),
        (key == "summary"@) <==> field_of(key) == Some(Field::Summary),
        (key == "description"@) <==> field_of(key) == Some(Field::Description),
        (key == "builddeps"@) <==> field_of(key) == Some(Field::Builddeps),
        (key == "setup"@) <==> field_of(key) == Some(Field::Setup),
        (key == "build"@) <==> field_of(key) == Some(Field::Build),
        (key == "install"@) <==> field_of(key) == Some(Field::Install),
{
    lemma_field_keys();
    assert(key_of(Field::Name) == "name"@);
    assert(key_of(Field::Version) == "version"@);
    assert(key_of(Field::Release) == "release"@);
    assert(key_of(Field::Source) == "source"@);
    assert(key_of(Field::License) == "license"@);
    assert(key_of(Field::Component) == "component"@);
    assert(key_of(Field::Summary) == "summary"@);
    assert(key_of(Field::Description) == "description"@);
    assert(key_of(Field::Builddeps) == "builddeps"@);
    assert(key_of(Field::Setup) == "setup"@);
    assert(key_of(Field::Build) == "build"@);
    assert(key_of(Field::Install) == "install"@);
    assert(forall|field: Field| key == key_of(field) ==> field_of(key) == Some(field));
}

/// Mapping one more entry that has no error is assigning it.
pub proof fn lemma_mapped_push(pkg: PackageView, entries: Seq<EntryView>, e: EntryView)
    requires
        distinct_keys(entries.push(e)),
        entry_error(e) is None,
    ensures
        mapped(pkg, entries.push(e)) == assigned(mapped(pkg, entries), e),
{
    let after = mapped(pkg, entries.push(e));
    let direct = assigned(mapped(pkg, entries), e);
    assert(after.name == direct.name) by {
        lemma_lookup_push(entries, e, "name"@);
        lemma_key_names_field(e.key);
    }
    assert(after.version == direct.version) by {
        lemma_lookup_push(entries, e, "version"@);
        lemma_key_names_field(e.key);
    }
    assert(after.release == direct.release) by {
        lemma_lookup_push(entries, e, "release"@);
        lemma_key_names_field(e.key);
    }
    assert(after.source == direct.source) by {
        lemma_lookup_push(entries, e, "source"@);
        lemma_key_names_field(e.key);
    }
    assert(after.license == direct.license) by {
        lemma_lookup_push(entries, e, "license"@);
        lemma_key_names_field(e.key);
    }
    assert(after.component == direct.component) by {
        lemma_lookup_push(entries, e, "component"@);
        lemma_key_names_field(e.key);
    }
    assert(after.summary == direct.summary) by {
        lemma_lookup_push(entries, e, "summary"@);
        lemma_key_names_field(e.key);
    }
    assert(after.description == direct.description) by {
        lemma_lookup_push(entries, e, "description"@);
        lemma_key_names_field(e.key);
    }
    assert(after.builddeps == direct.builddeps) by {
        lemma_lookup_push(entries, e, "builddeps"@);
        lemma_key_names_field(e.key);
    }
    assert(after.setup == direct.setup) by {
        lemma_lookup_push(entries, e, "setup"@);
        lemma_key_names_field(e.key);
    }
    assert(after.build == direct.build) by {
        lemma_lookup_push(entries, e, "build"@);
        lemma_key_names_field(e.key);
    }
    assert(after.install == direct.install) by {
        lemma_lookup_push(entries, e, "install"@);
        lemma_key_names_field(e.key);
    }
}

/// The first of `values`, if there is one.
pub fn fst(values: Vec<String>) -> (r: Option<String>)
    ensures
        match r {
            Some(s) => values@.len() > 0 && s@ == values.deep_view()[0],
            None => values@.len() == 0,
        },
{
    let mut values = values;
    if values.len() > 0 {
        Some(values.swap_remove(0))
    } else {
        None
    }
}

/// Maps one entry onto `acc`. Returns the key of the entry where it names no
/// field. On an error `acc` is left as it was.
fn assign(acc: &mut Package, e: Entry) -> (r: Result<Option<String>, PackageError>)
    ensures
        match r {
            Ok(unknown) => entry_error(e@) is None && final(acc)@ == assigned(old(acc)@, e@)
                && match unknown {
                Some(key) => field_of(e@.key) is None && key@ == e@.key,
                None => field_of(e@.key) is Some,
            },
            Err(err) => entry_error(e@) == Some(err) && final(acc)@ == old(acc)@,
        },
{
    let Entry { key, values } = e;
    match field_for(&key) {
        Some(Field::Name) => match fst(values) {
            Some(s) => {
                acc.name = Some(s);
                Ok(None)
            },
            None => Err(PackageError::MissingValue),
        },
        Some(Field::Version) => match fst(values) {
            Some(s) => {
                acc.version = Some(s);
                Ok(None)
            },
            None => Err(PackageError::MissingValue),
        },
        Some(Field::Release) => match fst(values) {
            Some(s) => {
                let digits = chars_of(s.as_str());
                match parse_integer(digits.as_slice()) {
                    Some(n) => {
                        acc.release = Some(n);
                        Ok(None)
                    },
                    None => Err(PackageError::InvalidNumber),
                }
            },
            None => Err(PackageError::MissingValue),
        },
        Some(Field::Source) => {
            acc.source = Some(values);
            Ok(None)
        },
        Some(Field::License) => {
            acc.license = Some(values);
            Ok(None)
        },
        Some(Field::Component) => match fst(values) {
            Some(s) => {
                acc.component = Some(s);
                Ok(None)
            },
            None => Err(PackageError::MissingValue),
        },
        Some(Field::Summary) => match fst(values) {
            Some(s) => {
                acc.summary = Some(s);
                Ok(None)
            },
            None => Err(PackageError::MissingValue),
        },
        Some(Field::Description) => match fst(values) {
            Some(s) => {
                acc.description = Some(s);
                Ok(None)
            },
            None => Err(PackageError::MissingValue),
        },
        Some(Field::Builddeps) => {
            acc.builddeps = Some(values);
            Ok(None)
        },
        Some(Field::Setup) => {
            acc.setup = Some(values);
            Ok(None)
        },
        Some(Field::Build) => {
            acc.build = Some(values);
            Ok(None)
        },
        Some(Field::Install) => {
            acc.install = Some(values);
            Ok(None)
        },
        None => Ok(Some(key)),
    }
}

/// Maps the entries of `parse_map` onto `pkg`, each key onto its own field.
///
/// Returns the keys that name no field, in the order of the mapping; they
/// change nothing. Fails with the error of the first entry that has one, and
/// then leaves `pkg` as it was.
pub fn expr_to_pkg(parse_map: RecipeMap, pkg: &mut Package) -> (r: Result<
    Vec<String>,
    PackageError,
>)
    ensures
        match r {
            Ok(unknown) => first_error(parse_map@) is None && final(pkg)@ == mapped(
                old(pkg)@,
                parse_map@,
            ) && unknown.deep_view() == unknown_keys(parse_map@),
            Err(e) => first_error(parse_map@) == Some(e) && final(pkg)@ == old(pkg)@,
        },
{
    let entries = parse_map.into_entries();
    let ghost all = entry_views(entries@);
    let mut acc = Package::new();
    let mut unknown: Vec<String> = Vec::new();
    assert(all.skip(0) == all);
    assert(all.take(0) =~= Seq::<EntryView>::empty());
    assert(unknown.deep_view() =~= Seq::<Seq<char>>::empty());
    for e in iter: entries
        invariant
            all == entry_views(iter.seq()),
            all == parse_map@,
            distinct_keys(all),
            first_error(all) == first_error(all.skip(iter.index() as int)),
            unknown_keys(all) == unknown.deep_view() + unknown_keys(all.skip(iter.index() as int)),
            acc@ == mapped(empty_package(), all.take(iter.index() as int)),
            *pkg == *old(pkg),
    {
        let ghost i = iter.index() as int;
        let ghost before = unknown.deep_view();
        proof {
            assert(all[i] == e@);
            assert(all.skip(i).first() == all[i]);
            assert(all.skip(i).drop_first() == all.skip(i + 1));
            assert(all.take(i + 1) == all.take(i).push(all[i]));
            assert(distinct_keys(all.take(i + 1))) by {
                assert forall|a: int, b: int| 0 <= a < b < i + 1 implies (#[trigger] all.take(
                    i + 1,
                )[a]).key != (#[trigger] all.take(i + 1)[b]).key by {
                    assert(all[a].key != all[b].key);
                }
            }
        }
        match assign(&mut acc, e) {
            Ok(Some(key)) => {
                unknown.push(key);
                assert(unknown.deep_view() =~= before.push(all[i].key));
            },
            Ok(None) => {},
            Err(err) => {
                return Err(err);
            },
        }
        proof {
            lemma_mapped_push(empty_package(), all.take(i), all[i]);
        }
    }
    assert(all.take(all.len() as int) == all);
    if acc.name.is_some() {
        pkg.name = acc.name;
    }
    if acc.version.is_some() {
        pkg.version = acc.version;
    }
    if acc.release.is_some() {
        pkg.release = acc.release;
    }
    if acc.source.is_some() {
        pkg.source = acc.source;
    }
    if acc.license.is_some() {
        pkg.license = acc.license;
    }
    if acc.component.is_some() {
        pkg.component = acc.component;
    }
    if acc.summary.is_some() {
        pkg.summary = acc.summary;
    }
    if acc.description.is_some() {
        pkg.description = acc.description;
    }
    if acc.builddeps.is_some() {
        pkg.builddeps = acc.builddeps;
    }
    if acc.setup.is_some() {
        pkg.setup = acc.setup;
    }
    if acc.build.is_some() {
        pkg.build = acc.build;
    }
    if acc.install.is_some() {
        pkg.install = acc.install;
    }
    Ok(unknown)
}

} // verus!
