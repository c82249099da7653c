use solar::number::parse_integer;
use solar::package::{expr_to_pkg, fst, Package, PackageError};
use solar::parser::parse;

fn strings(items: &[&str]) -> Vec<String> {
    items.iter().map(|s| s.to_string()).collect()
}

fn number(s: &str) -> Option<i64> {
    let chars: Vec<char> = s.chars().collect();
    parse_integer(&chars)
}

#[test]
fn name_version_release() {
    let map = parse("name: foo\nversion: 1.0\nrelease: 3").unwrap();
    let mut pkg = Package::default();
    let unknown = expr_to_pkg(map, &mut pkg).unwrap();
    assert!(unknown.is_empty());
    assert_eq!(pkg.name.as_deref(), Some("foo"));
    assert_eq!(pkg.version.as_deref(), Some("1.0"));
    assert_eq!(pkg.release, Some(3));
    assert_eq!(pkg.source, None);
    assert_eq!(pkg.license, None);
    assert_eq!(pkg.component, None);
    assert_eq!(pkg.summary, None);
    assert_eq!(pkg.description, None);
    assert_eq!(pkg.builddeps, None);
    assert_eq!(pkg.setup, None);
    assert_eq!(pkg.build, None);
    assert_eq!(pkg.install, None);
}

#[test]
fn every_key_goes_to_its_own_field() {
    let text = "install:\n\tmake install\nbuild:\n\tmake\nsetup:\n\t%reconfigure\n\
                builddeps:\n\t- pkgconfig(zlib)\ndescription: d\nsummary: s\ncomponent: c\n\
                license:\n\tMIT\n\tBSD\nsource:\n\thttp://a\nrelease: 12\nversion: v\nname: n";
    let mut pkg = Package::new();
    let unknown = expr_to_pkg(parse(text).unwrap(), &mut pkg).unwrap();
    assert!(unknown.is_empty());
    assert_eq!(pkg.name.as_deref(), Some("n"));
    assert_eq!(pkg.version.as_deref(), Some("v"));
    assert_eq!(pkg.release, Some(12));
    assert_eq!(pkg.source, Some(strings(&["http://a"])));
    assert_eq!(pkg.license, Some(strings(&["MIT", "BSD"])));
    assert_eq!(pkg.component.as_deref(), Some("c"));
    assert_eq!(pkg.summary.as_deref(), Some("s"));
    assert_eq!(pkg.description.as_deref(), Some("d"));
    assert_eq!(pkg.builddeps, Some(strings(&["- pkgconfig(zlib)"])));
    assert_eq!(pkg.setup, Some(strings(&["%reconfigure"])));
    assert_eq!(pkg.build, Some(strings(&["make"])));
    assert_eq!(pkg.install, Some(strings(&["make install"])));
}

#[test]
fn unknown_key_is_reported_and_dropped() {
    let map = parse("foo: bar\nname: x\nbaz:\n\t1\nversion: 2").unwrap();
    let mut pkg = Package::default();
    let unknown = expr_to_pkg(map, &mut pkg).unwrap();
    assert_eq!(unknown, strings(&["foo", "baz"]));
    assert_eq!(pkg.name.as_deref(), Some("x"));
    assert_eq!(pkg.version.as_deref(), Some("2"));
    assert_eq!(pkg.release, None);
}

#[test]
fn keys_are_case_sensitive() {
    let mut pkg = Package::default();
    let unknown = expr_to_pkg(parse("Name: x").unwrap(), &mut pkg).unwrap();
    assert_eq!(unknown, strings(&["Name"]));
    assert_eq!(pkg.name, None);
}

#[test]
fn scalar_takes_the_first_value_of_a_block() {
    let mut pkg = Package::default();
    expr_to_pkg(parse("summary:\n\tfirst\n\tsecond").unwrap(), &mut pkg).unwrap();
    assert_eq!(pkg.summary.as_deref(), Some("first"));
}

#[test]
fn list_field_may_be_empty() {
    let mut pkg = Package::default();
    expr_to_pkg(parse("license:\nsetup: |").unwrap(), &mut pkg).unwrap();
    assert_eq!(pkg.license, Some(Vec::new()));
    assert_eq!(pkg.setup, Some(Vec::new()));
}

#[test]
fn scalar_without_value_is_missing() {
    for key in ["name", "version", "release", "component", "summary", "description"] {
        let mut pkg = Package::default();
        let map = parse(&format!("{}:", key)).unwrap();
        assert_eq!(expr_to_pkg(map, &mut pkg).err(), Some(PackageError::MissingValue), "{}", key);
    }
}

#[test]
fn release_must_be_a_number() {
    for value in ["three", "1.0", "3 4", "0x10", "-", "+", "9223372036854775808"] {
        let mut pkg = Package::default();
        let map = parse(&format!("release: {}", value)).unwrap();
        assert_eq!(
            expr_to_pkg(map, &mut pkg).err(),
            Some(PackageError::InvalidNumber),
            "{}",
            value
        );
    }
}

#[test]
fn first_error_wins_and_the_package_is_untouched() {
    let mut pkg = Package::default();
    expr_to_pkg(parse("name: old\nrelease: 1\nsetup:\n\ta").unwrap(), &mut pkg).unwrap();
    let map = parse("name: new\nsetup:\n\tb\nrelease: x\nversion:").unwrap();
    assert_eq!(expr_to_pkg(map, &mut pkg).err(), Some(PackageError::InvalidNumber));
    assert_eq!(pkg.name.as_deref(), Some("old"));
    assert_eq!(pkg.release, Some(1));
    assert_eq!(pkg.setup, Some(strings(&["a"])));
    let map = parse("name: new\nversion:\nrelease: x").unwrap();
    assert_eq!(expr_to_pkg(map, &mut pkg).err(), Some(PackageError::MissingValue));
    assert_eq!(pkg.name.as_deref(), Some("old"));
}

#[test]
fn later_mapping_overrides_declared_fields_only() {
    let mut pkg = Package::default();
    expr_to_pkg(parse("name: old\nrelease: 1").unwrap(), &mut pkg).unwrap();
    expr_to_pkg(parse("name: new\nversion: 2").unwrap(), &mut pkg).unwrap();
    assert_eq!(pkg.name.as_deref(), Some("new"));
    assert_eq!(pkg.version.as_deref(), Some("2"));
    assert_eq!(pkg.release, Some(1));
}

#[test]
fn decimal_integers() {
    assert_eq!(number("0"), Some(0));
    assert_eq!(number("3"), Some(3));
    assert_eq!(number("007"), Some(7));
    assert_eq!(number("+42"), Some(42));
    assert_eq!(number("-42"), Some(-42));
    assert_eq!(number("-0"), Some(0));
    assert_eq!(number("1234567890"), Some(1234567890));
    assert_eq!(number("9223372036854775807"), Some(i64::MAX));
    assert_eq!(number("-9223372036854775808"), Some(i64::MIN));
    assert_eq!(number("9223372036854775808"), None);
    assert_eq!(number("-9223372036854775809"), None);
    assert_eq!(number("99999999999999999999999"), None);
    assert_eq!(number(""), None);
    assert_eq!(number("+"), None);
    assert_eq!(number("-"), None);
    assert_eq!(number("+-1"), None);
    assert_eq!(number("1 "), None);
    assert_eq!(number(" 1"), None);
    assert_eq!(number("1a"), None);
    assert_eq!(number("a1"), None);
    assert_eq!(number("\u{661}"), None);
}

#[test]
fn integers_agree_with_std() {
    for s in ["12", "-7", "+0", "18446744073709551615", "--1", "1_000", "٣", "9223372036854775807"] {
        assert_eq!(number(s), s.parse::<i64>().ok(), "{}", s);
    }
}

#[test]
fn first_of_a_list() {
    assert_eq!(fst(strings(&["a", "b", "c"])), Some("a".to_string()));
    assert_eq!(fst(strings(&["a"])), Some("a".to_string()));
    assert_eq!(fst(Vec::new()), None);
}
