//! Attribute-value quoting and escaping: the renderer and parser round-trip
//! values exactly, reject values with no single-line representation, and
//! keep legacy unescaped lines parsing unchanged.

use vaire::extract::{parse_attr_line, render_attr_line};
use vaire::{Error, Item};

/// Values the renderer and parser must round-trip byte-exactly.
const VALUES: &[&str] = &[
    "approved",
    "a,b",
    "a]b",
    "a]",
    "a\"b",
    "a\"b, c]",
    "C:\\path",
    "a\"b\\c",
    "",
    " padded ",
    "déjà vu \"✓\"",
];

fn kv(name: &str, value: &str) -> Item {
    Item::Kv {
        name: name.to_owned(),
        value: value.to_owned(),
    }
}

#[test]
fn malformed_escapes_and_legacy_lines_have_defined_values() {
    let parse = |line: &str| parse_attr_line(line, 0, line.len()).items.pop().unwrap();
    // `\"` at the end never closes the quote: the escape decodes and the
    // trailing backslash stays, instead of rejecting a hand-edited line.
    assert_eq!(parse("[status=\"a\\\"]"), kv("status", "a\\"));
    // An unterminated quote passes through literally, as it always has.
    assert_eq!(parse("[status=\"abc]"), kv("status", "\"abc"));
    // Legacy unescaped lines: quotes without backslashes and bare
    // backslashes outside quotes keep their old values.
    assert_eq!(
        parse("[rationale=\"safety interlock\"]"),
        kv("rationale", "safety interlock")
    );
    assert_eq!(parse("[source=C:\\path]"), kv("source", "C:\\path"));
}

#[test]
fn render_and_parse_are_stable_for_tricky_values() {
    for value in VALUES {
        let items = vec![kv("status", value)];
        let first = render_attr_line(&items).unwrap();
        let reparsed = parse_attr_line(&first, 0, first.len());
        assert_eq!(reparsed.items, items, "value {value:?} did not re-parse");
        let second = render_attr_line(&reparsed.items).unwrap();
        assert_eq!(second, first, "value {value:?} is not render-stable");
        let again = parse_attr_line(&second, 0, second.len());
        assert_eq!(again.items, reparsed.items, "value {value:?} drifted");
    }
}

#[test]
fn a_comma_quote_and_bracket_value_renders_escaped() {
    let line = render_attr_line(&[kv("modality", "shall"), kv("status", "a\"b, c]")]).unwrap();
    assert_eq!(line, "[modality=shall, status=\"a\\\"b, c]\"]");
}

#[test]
fn several_quoted_values_render_on_one_line() {
    let line = render_attr_line(&[
        kv("modality", "shall, unless overridden"),
        kv("status", "in review"),
    ])
    .unwrap();
    assert_eq!(
        line,
        "[modality=\"shall, unless overridden\", status=\"in review\"]"
    );
}

#[test]
fn style_and_id_render_as_one_positional_item() {
    let items = vec![
        Item::Style("requirement".to_owned()),
        Item::Id("SWR-0001".to_owned()),
    ];
    let line = render_attr_line(&items).unwrap();
    assert_eq!(line, "[requirement#SWR-0001]");
    assert_eq!(parse_attr_line(&line, 0, line.len()).items, items);
}

#[test]
fn a_value_with_a_line_break_has_no_rendering() {
    for value in ["beep\nboop", "beep\rboop"] {
        let error = render_attr_line(&[kv("status", value)]).unwrap_err();
        assert!(matches!(error, Error::Unrepresentable(_)), "{error:?}");
        let message = error.message();
        assert!(message.contains("line break"), "{message}");
        assert!(message.contains("single-line"), "{message}");
        assert!(message.starts_with("unrepresentable: "), "{message}");
    }
}

#[test]
fn parse_records_the_line_place_and_raw_text() {
    let source = "x\n[status=draft, kind=functional]\n";
    let line = parse_attr_line(source, 2, source.len() - 1);
    assert_eq!(line.start, 2);
    assert_eq!(line.end, source.len() - 1);
    assert_eq!(line.raw, "[status=draft, kind=functional]");
    assert_eq!(
        line.items,
        vec![kv("status", "draft"), kv("kind", "functional")]
    );
}

#[test]
fn an_unquoted_hash_splits_style_and_id_and_a_quoted_one_does_not() {
    let items = |line: &str| parse_attr_line(line, 0, line.len()).items;
    assert_eq!(
        items("[note=see#3]"),
        [Item::Style("note=see".to_owned()), Item::Id("3".to_owned())]
    );
    assert_eq!(items("[rationale=\"see #3\"]"), [kv("rationale", "see #3")]);
    let rendered = render_attr_line(&[kv("note", "see#3")]).unwrap();
    assert_eq!(rendered, "[note=\"see#3\"]");
    assert_eq!(items(&rendered), [kv("note", "see#3")]);
}
