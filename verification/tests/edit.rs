//! `edit`: attribute edits planned and applied through the library, with
//! rejections for unknown keys, structural keys, missing and duplicate ids
//! and unrepresentable values.

use vaire::edit::{
    apply, carries, edit, edit_in, locate, plan, plan_in, structural_reason, validate_sets,
    Assignment,
};
use vaire::extract::extract;
use vaire::Error;

const TWO: &str = "[requirement#SWR-0001]\n[modality=shall, status=draft]\n[volatility=low]\n--\nThe system shall beep.\n--\n\n[requirement#SWR-0002]\n[modality=shall, status=draft]\n--\nThe system shall log.\n--\n";
/// `TWO` with SWR-0001's status edited to `active`.
const TWO_EDITED: &str = "[requirement#SWR-0001]\n[modality=shall, status=active]\n[volatility=low]\n--\nThe system shall beep.\n--\n\n[requirement#SWR-0002]\n[modality=shall, status=draft]\n--\nThe system shall log.\n--\n";
const QUOTED: &str = "[requirement#SWR-0500]\n[modality=shall, rationale=old, source=old]\n--\nThe system shall quote.\n--\n";
/// Two records sharing one id; the second starts on line 7.
const DUP: &str = "[requirement#SWR-0100]\n[modality=shall, kind=functional, verification=test, status=draft]\n--\nThe system shall log all faults.\n--\n\n[requirement#SWR-0100]\n[modality=shall, kind=functional, verification=test, status=draft]\n--\nThe system shall log all warnings.\n--\n";

fn sets(raw: &[&str]) -> Vec<Assignment> {
    raw.iter().map(|r| Assignment::parse(r).unwrap()).collect()
}

fn edit_error(source: &str, id: &str, raw: &[&str]) -> Error {
    edit("t.adoc", source, id, &sets(raw)).unwrap_err()
}

#[test]
fn set_parse_splits_on_the_first_equals() {
    let set = Assignment::parse("rationale=a=b=c").unwrap();
    assert_eq!(set.key, "rationale");
    assert_eq!(set.value, "a=b=c");
    let empty = Assignment::parse("status=").unwrap();
    assert_eq!(empty.value, "");
    assert!(Assignment::parse("novalue")
        .unwrap_err()
        .message()
        .contains("KEY=VALUE"));
    assert!(Assignment::parse("=empty")
        .unwrap_err()
        .message()
        .contains("empty attribute name"));
}

#[test]
fn set_parse_errors_quote_the_argument() {
    assert_eq!(
        Assignment::parse("novalue").unwrap_err().message(),
        "expected KEY=VALUE, got `novalue`"
    );
    assert_eq!(
        Assignment::parse("=empty").unwrap_err().message(),
        "empty attribute name in `=empty`"
    );
}

#[test]
fn setting_one_attribute_changes_only_its_line() {
    let after = edit("t.adoc", TWO, "SWR-0001", &sets(&["status=active"])).unwrap();
    assert_eq!(after, TWO_EDITED, "byte-diff is exactly the status line");
    let changed: Vec<usize> = TWO
        .lines()
        .zip(after.lines())
        .enumerate()
        .filter(|(_, (a, b))| a != b)
        .map(|(i, _)| i)
        .collect();
    assert_eq!(changed, vec![1], "only SWR-0001's status line changed");
}

#[test]
fn the_plan_names_the_rewritten_line() {
    let edits = plan("t.adoc", TWO, "SWR-0001", &sets(&["status=active"])).unwrap();
    assert_eq!(edits.len(), 1);
    assert_eq!(edits[0].id, "SWR-0001");
    assert_eq!(edits[0].old, "[modality=shall, status=draft]");
    assert_eq!(edits[0].new, "[modality=shall, status=active]");
    assert_eq!(&TWO[edits[0].start..edits[0].end], edits[0].old);
}

#[test]
fn repeated_set_flags_edit_multiple_attributes() {
    let after = edit(
        "t.adoc",
        TWO,
        "SWR-0001",
        &sets(&["status=approved", "volatility=high"]),
    )
    .unwrap();
    assert_eq!(
        after,
        TWO.replacen(
            "[modality=shall, status=draft]",
            "[modality=shall, status=approved]",
            1,
        )
        .replace("[volatility=low]", "[volatility=high]")
    );
}

#[test]
fn quoted_values_are_escaped_and_round_trip() {
    let written = edit(
        "t.adoc",
        QUOTED,
        "SWR-0500",
        &sets(&[r#"rationale=a"b, c]"#, "source=déjà vu ✓=x"]),
    )
    .unwrap();
    assert!(
        written.contains(r#"[modality=shall, rationale="a\"b, c]", source="déjà vu ✓=x"]"#),
        "{written:?}"
    );
    let records = extract("t.adoc", &written).unwrap();
    assert_eq!(records.len(), 1);
    assert_eq!(records[0].field("rationale").as_deref(), Some(r#"a"b, c]"#));
    assert_eq!(records[0].field("source").as_deref(), Some("déjà vu ✓=x"));
}

#[test]
fn an_unknown_key_is_rejected() {
    let error = edit_error(TWO, "SWR-0001", &["flavor=umami"]);
    assert!(matches!(error, Error::Validation(_)), "{error:?}");
    let message = error.message();
    assert!(message.contains("flavor"), "{message}");
    assert!(message.contains("vocabulary"), "{message}");
}

#[test]
fn a_known_key_absent_from_the_record_is_rejected() {
    let message = edit_error(TWO, "SWR-0002", &["volatility=high"]).message();
    assert_eq!(
        message,
        "record SWR-0002 carries no attribute `volatility`; it carries: modality, status; edit only overwrites attributes already present"
    );
}

#[test]
fn a_missing_id_is_rejected_naming_the_id() {
    let error = edit_error(TWO, "SWR-9999", &["status=active"]);
    assert!(matches!(error, Error::Missing(_)), "{error:?}");
    assert_eq!(error.message(), "t.adoc: requirement `SWR-9999` not found");
}

#[test]
fn a_duplicate_id_is_rejected_listing_locations() {
    let message = edit_error(DUP, "SWR-0100", &["status=active"]).message();
    assert!(message.contains("appears 2 times"), "{message}");
    assert!(message.contains("line 1 (byte 0)"), "{message}");
    assert!(message.contains("line 7 (byte"), "{message}");
}

#[test]
fn an_id_edit_is_rejected() {
    let message = edit_error(TWO, "SWR-0001", &["id=SWR-9999"]).message();
    assert_eq!(message, "cannot set `id`: ids are immutable");
}

#[test]
fn a_style_edit_is_rejected() {
    let message = edit_error(TWO, "SWR-0001", &["style=requirement"]).message();
    assert!(message.contains("style"), "{message}");
    assert!(message.contains("positional grammar"), "{message}");
}

#[test]
fn a_body_edit_is_rejected() {
    let message = edit_error(TWO, "SWR-0001", &["body=The system shall not beep."]).message();
    assert!(message.contains("bodies are not editable"), "{message}");
}

#[test]
fn setting_the_same_key_twice_is_rejected() {
    let message = edit_error(TWO, "SWR-0001", &["status=active", "status=approved"]).message();
    assert!(message.contains("more than once"), "{message}");
}

#[test]
fn a_value_with_a_line_break_is_rejected() {
    for raw in ["status=beep\nboop", "status=beep\rboop"] {
        let error = edit_error(TWO, "SWR-0001", &[raw]);
        assert!(matches!(error, Error::Unrepresentable(_)), "{error:?}");
        let message = error.message();
        assert!(message.contains("line break"), "{message}");
        assert!(message.contains("single-line"), "{message}");
    }
}

#[test]
fn a_repeated_identical_edit_changes_nothing() {
    let once = edit("t.adoc", TWO, "SWR-0001", &sets(&["status=active"])).unwrap();
    let edits = plan("t.adoc", &once, "SWR-0001", &sets(&["status=active"])).unwrap();
    assert!(edits.is_empty());
    let twice = edit("t.adoc", &once, "SWR-0001", &sets(&["status=active"])).unwrap();
    assert_eq!(twice, once);
}

#[test]
fn structural_names_have_reasons() {
    assert_eq!(structural_reason("id"), Some("ids are immutable"));
    assert_eq!(
        structural_reason("style"),
        Some("style is positional grammar, not a named attribute")
    );
    assert_eq!(structural_reason("body"), Some("bodies are not editable via edit"));
    assert_eq!(structural_reason("status"), None);
}

#[test]
fn apply_overwrites_every_line_carrying_the_key() {
    let source = "[requirement#SWR-0001]\n[status=draft]\n[status=old, kind=functional]\n--\nThe system shall beep.\n--\n";
    let mut records = extract("t.adoc", source).unwrap();
    assert!(carries(&records[0], "status"));
    assert!(!carries(&records[0], "verification"));
    apply(&mut records[0], &sets(&["status=active"]));
    assert_eq!(records[0].field("status").as_deref(), Some("active"));
    for line in &records[0].attr_lines[1..] {
        assert!(line.items.iter().any(|item| matches!(
            item,
            vaire::Item::Kv { name, value } if name == "status" && value == "active"
        )));
    }
    assert_eq!(records[0].field("kind").as_deref(), Some("functional"));
    assert_eq!(records[0].attr_lines[1].raw, "[status=draft]");
    let after = edit("t.adoc", source, "SWR-0001", &sets(&["status=active"])).unwrap();
    assert_eq!(
        after,
        "[requirement#SWR-0001]\n[status=active]\n[status=active, kind=functional]\n--\nThe system shall beep.\n--\n"
    );
}

#[test]
fn validate_sets_accepts_carried_vocabulary_keys() {
    let records = extract("t.adoc", TWO).unwrap();
    assert!(validate_sets(&records[0], &sets(&["status=x", "volatility=y"])).is_ok());
    assert!(validate_sets(&records[1], &sets(&["volatility=y"])).is_err());
}

#[test]
fn locate_finds_the_one_record() {
    let records = extract("t.adoc", TWO).unwrap();
    assert_eq!(locate("t.adoc", TWO, &records, "SWR-0002").unwrap(), 1);
    let dups = extract("t.adoc", DUP).unwrap();
    let message = locate("t.adoc", DUP, &dups, "SWR-0100").unwrap_err().message();
    assert_eq!(
        message,
        "t.adoc: requirement id `SWR-0100` appears 2 times: line 1 (byte 0), line 7 (byte 130)"
    );
}

#[test]
fn plan_in_and_edit_in_work_on_the_extracted_records() {
    let live = extract("t.adoc", TWO).unwrap();
    let edits = plan_in("t.adoc", TWO, &live, "SWR-0001", &sets(&["status=active"])).unwrap();
    assert_eq!(edits.len(), 1);
    assert_eq!(edits[0].id, "SWR-0001");
    assert_eq!((edits[0].start, edits[0].end), (23, 53));
    assert_eq!(edits[0].old, "[modality=shall, status=draft]");
    assert_eq!(edits[0].new, "[modality=shall, status=active]");
    let after = edit_in("t.adoc", TWO, &live, "SWR-0001", &sets(&["status=active"])).unwrap();
    assert_eq!(after, TWO_EDITED);
    let refused = |id: &str, raw: &[&str]| {
        let p = plan_in("t.adoc", TWO, &live, id, &sets(raw)).unwrap_err().message();
        let e = edit_in("t.adoc", TWO, &live, id, &sets(raw)).unwrap_err().message();
        assert_eq!(p, e, "edit refuses as the plan does");
        p
    };
    assert!(refused("SWR-9999", &["status=x"]).contains("not found"));
    assert!(refused("SWR-0002", &["volatility=x"]).contains("carries no attribute"));
    assert!(refused("SWR-0001", &["flavor=x"]).contains("vocabulary"));
    assert!(refused("SWR-0001", &["status=a", "status=b"]).contains("more than once"));
    assert!(refused("SWR-0001", &["id=x"]).contains("immutable"));
}
