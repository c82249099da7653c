use solar::line::{classify_line, LineKind};
use solar::parser::{parse, ParseError};
use solar::recipe::RecipeMap;
use solar::text::is_space_char;

fn values(map: &RecipeMap, key: &str) -> Option<Vec<String>> {
    map.get(key).cloned()
}

fn strings(items: &[&str]) -> Vec<String> {
    items.iter().map(|s| s.to_string()).collect()
}

#[test]
fn single_line_declarations() {
    let map = parse("name: foo\nversion: 1.0\nrelease: 3").unwrap();
    assert_eq!(map.len(), 3);
    assert_eq!(values(&map, "name"), Some(strings(&["foo"])));
    assert_eq!(values(&map, "version"), Some(strings(&["1.0"])));
    assert_eq!(values(&map, "release"), Some(strings(&["3"])));
    assert_eq!(values(&map, "source"), None);
}

#[test]
fn keys_keep_the_order_of_their_first_declaration() {
    let map = parse("b: 1\na: 2\nb: 3\nc: 4\n").unwrap();
    assert_eq!(map.len(), 3);
    assert_eq!(map.entry(0).unwrap().key, "b");
    assert_eq!(map.entry(0).unwrap().values, strings(&["3"]));
    assert_eq!(map.entry(1).unwrap().key, "a");
    assert_eq!(map.entry(2).unwrap().key, "c");
    assert!(map.entry(3).is_none());
    assert_eq!(map.position("a"), Some(1));
    assert_eq!(map.position("z"), None);
}

#[test]
fn block_with_marker() {
    let map = parse("source: |\n\thttp://a\n\thttp://b").unwrap();
    assert_eq!(map.len(), 1);
    assert_eq!(values(&map, "source"), Some(strings(&["http://a", "http://b"])));
}

#[test]
fn block_with_empty_value_holds_each_continuation_line() {
    let map = parse("build:\n    make  \n\t make check\n     \n    make install\n").unwrap();
    assert_eq!(
        values(&map, "build"),
        Some(strings(&["make", "make check", "", "make install"]))
    );
}

#[test]
fn block_without_lines_is_empty() {
    let map = parse("setup:\nname: x").unwrap();
    assert_eq!(values(&map, "setup"), Some(Vec::new()));
    assert_eq!(values(&map, "name"), Some(strings(&["x"])));
}

#[test]
fn value_is_all_that_follows_the_first_colon() {
    let map = parse("homepage :  http://example.org:80/x  ").unwrap();
    assert_eq!(values(&map, "homepage"), Some(strings(&["http://example.org:80/x"])));
}

#[test]
fn empty_text_has_no_entries() {
    assert_eq!(parse("").unwrap().len(), 0);
    assert_eq!(parse("\n\n").unwrap().len(), 0);
}

#[test]
fn continuation_before_any_declaration_fails() {
    assert_eq!(parse("\tfoo").err(), Some(ParseError::DanglingContinuation));
    assert_eq!(parse("    foo\nname: x").err(), Some(ParseError::DanglingContinuation));
}

#[test]
fn continuation_after_a_single_line_declaration_fails() {
    assert_eq!(parse("name: x\n\ty").err(), Some(ParseError::DanglingContinuation));
}

#[test]
fn line_without_colon_is_ignored_and_closes_the_block() {
    let map = parse("source:\n\ta\ngarbage\nname: x").unwrap();
    assert_eq!(map.len(), 2);
    assert_eq!(values(&map, "source"), Some(strings(&["a"])));
    assert_eq!(values(&map, "garbage"), None);
    assert_eq!(
        parse("source:\n\ta\ngarbage\n\tb").err(),
        Some(ParseError::DanglingContinuation)
    );
    assert_eq!(parse("source:\n\ta\n\n\tb").err(), Some(ParseError::DanglingContinuation));
}

#[test]
fn comments_are_skipped() {
    let with = parse("# head\nsource:\n\ta\n\t# inside\n   # less indented\n\tb\n#tail").unwrap();
    let without = parse("source:\n\ta\n\tb").unwrap();
    assert_eq!(with.len(), without.len());
    assert_eq!(values(&with, "source"), Some(strings(&["a", "b"])));
    assert_eq!(values(&with, "source"), values(&without, "source"));
}

#[test]
fn commented_declaration_declares_nothing() {
    let map = parse("#name: foo\n  # version: 1\nrelease: 2").unwrap();
    assert_eq!(map.len(), 1);
    assert_eq!(values(&map, "release"), Some(strings(&["2"])));
}

#[test]
fn redeclaration_keeps_the_second_declaration_only() {
    let map = parse("name: one\nname: two").unwrap();
    assert_eq!(map.len(), 1);
    assert_eq!(values(&map, "name"), Some(strings(&["two"])));
    let map = parse("deps:\n\ta\n\tb\nname: x\ndeps:\n\tc").unwrap();
    assert_eq!(values(&map, "deps"), Some(strings(&["c"])));
    let map = parse("deps:\n\ta\ndeps: b").unwrap();
    assert_eq!(values(&map, "deps"), Some(strings(&["b"])));
}

#[test]
fn escaped_line_feed_joins_two_lines() {
    let joined = parse("summary: a long \\\nsummary\nname: x").unwrap();
    let plain = parse("summary: a long  summary\nname: x").unwrap();
    assert_eq!(values(&joined, "summary"), Some(strings(&["a long  summary"])));
    assert_eq!(values(&joined, "summary"), values(&plain, "summary"));
    assert_eq!(joined.len(), plain.len());
}

#[test]
fn escaped_line_feed_swallows_the_next_declaration() {
    let map = parse("a: b\\\nc: d").unwrap();
    assert_eq!(map.len(), 1);
    assert_eq!(values(&map, "a"), Some(strings(&["b c: d"])));
}

#[test]
fn backslash_that_escapes_nothing_is_kept() {
    let map = parse("a: b\\ \nc: d\\").unwrap();
    assert_eq!(map.len(), 2);
    assert_eq!(values(&map, "a"), Some(strings(&["b\\"])));
    assert_eq!(values(&map, "c"), Some(strings(&["d\\"])));
}

#[test]
fn backslash_before_carriage_return_is_kept() {
    let map = parse("a: b\\\r\nc: d").unwrap();
    assert_eq!(map.len(), 2);
    assert_eq!(values(&map, "a"), Some(strings(&["b\\"])));
    assert_eq!(values(&map, "c"), Some(strings(&["d"])));
}

#[test]
fn carriage_returns_are_trimmed_away() {
    let map = parse("name: foo\r\nsource:\r\n\thttp://a\r\n").unwrap();
    assert_eq!(values(&map, "name"), Some(strings(&["foo"])));
    assert_eq!(values(&map, "source"), Some(strings(&["http://a"])));
}

#[test]
fn single_line_entries_survive_a_round_trip() {
    let first = parse("name: foo\n# note\nhomepage: http://x:1\nversion: 1.0\nname: bar").unwrap();
    let mut text = String::new();
    for i in 0..first.len() {
        let e = first.entry(i).unwrap();
        assert_eq!(e.values.len(), 1);
        if i > 0 {
            text.push('\n');
        }
        text.push_str(&format!("{}: {}", e.key, e.values[0]));
    }
    assert_eq!(text, "name: bar\nhomepage: http://x:1\nversion: 1.0");
    let second = parse(&text).unwrap();
    assert_eq!(second.len(), first.len());
    for i in 0..first.len() {
        assert_eq!(second.entry(i).unwrap().key, first.entry(i).unwrap().key);
        assert_eq!(second.entry(i).unwrap().values, first.entry(i).unwrap().values);
    }
}

#[test]
fn classifies_lines() {
    assert_eq!(classify_line("# comment"), LineKind::Comment);
    assert_eq!(classify_line("   \t # comment"), LineKind::Comment);
    assert_eq!(classify_line("#"), LineKind::Comment);
    assert_eq!(classify_line("\tvalue"), LineKind::Continuation);
    assert_eq!(classify_line("    value"), LineKind::Continuation);
    assert_eq!(classify_line("      value"), LineKind::Continuation);
    assert_eq!(classify_line("    "), LineKind::Continuation);
    assert_eq!(classify_line("   value"), LineKind::Declaration);
    assert_eq!(classify_line("  \tvalue"), LineKind::Declaration);
    assert_eq!(classify_line("key: value"), LineKind::Declaration);
    assert_eq!(classify_line("key # not a comment"), LineKind::Declaration);
    assert_eq!(classify_line(""), LineKind::Declaration);
}

#[test]
fn white_space_is_what_std_calls_white_space() {
    let mut c = '\0';
    loop {
        assert_eq!(is_space_char(c), c.is_whitespace(), "{:?}", c);
        if c == char::MAX {
            break;
        }
        c = char::from_u32(c as u32 + 1).unwrap_or('\u{e000}');
    }
}

#[test]
fn unicode_white_space_is_trimmed() {
    let map = parse("\u{a0}name\u{2003}:\u{3000}caf\u{e9} au lait\u{2028}").unwrap();
    assert_eq!(values(&map, "name"), Some(strings(&["caf\u{e9} au lait"])));
}

#[test]
fn mapping_built_by_hand() {
    let mut map = RecipeMap::new();
    map.insert("a".to_string(), strings(&["1"]));
    map.insert("b".to_string(), strings(&[]));
    map.insert("a".to_string(), strings(&["2", "3"]));
    assert_eq!(map.len(), 2);
    assert_eq!(values(&map, "a"), Some(strings(&["2", "3"])));
    assert_eq!(values(&map, "b"), Some(strings(&[])));
    assert_eq!(map.entry(0).unwrap().key, "a");
}
