//! Reading a record: the merged attribute view and the normative statement.

use vaire::extract::extract;
use vaire::Error;

const LAYERED: &str = "[requirement#SWR-0001]\n[status=draft, kind=functional]\n[modality=shall]\n[status=approved]\n--\nThe system shall boot\nwithin 5 s.\n\nNot part of the statement.\n--\n";

#[test]
fn later_lines_override_earlier_ones_in_first_place_order() {
    let records = extract("r.adoc", LAYERED).unwrap();
    let fields = records[0].fields();
    assert_eq!(
        fields,
        vec![
            ("status".to_owned(), "approved".to_owned()),
            ("kind".to_owned(), "functional".to_owned()),
            ("modality".to_owned(), "shall".to_owned()),
        ]
    );
    assert_eq!(records[0].field("status").as_deref(), Some("approved"));
    assert_eq!(records[0].field("verification"), None);
}

#[test]
fn the_statement_is_the_leading_paragraph_joined_by_spaces() {
    let records = extract("r.adoc", LAYERED).unwrap();
    assert_eq!(records[0].statement(), "The system shall boot within 5 s.");
}

#[test]
fn titles_and_description_entries_end_the_statement() {
    let source = "[requirement#A]\n--\nThe system shall boot.\n.Title\nMore.\n--\n";
    assert_eq!(extract("r.adoc", source).unwrap()[0].statement(), "The system shall boot.");
    let source = "[requirement#B]\n--\nThe system shall boot.\nScale:: seconds\n--\n";
    assert_eq!(extract("r.adoc", source).unwrap()[0].statement(), "The system shall boot.");
}

#[test]
fn error_messages_carry_their_kind() {
    assert_eq!(Error::Parse("x".to_owned()).message(), "parse error: x");
    assert_eq!(Error::Io("x".to_owned()).message(), "io error: x");
    assert_eq!(Error::Json("x".to_owned()).message(), "json error: x");
    assert_eq!(Error::Unrepresentable("x".to_owned()).message(), "unrepresentable: x");
    assert_eq!(Error::Validation("x".to_owned()).message(), "x");
    assert_eq!(Error::Missing("x".to_owned()).message(), "x");
}
