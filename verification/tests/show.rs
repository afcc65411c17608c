//! Showing one record: its location, style, lines and split attributes.

use vaire::extract::extract;
use vaire::show::{line_number, location, shown};

const SOURCE: &str = "= Title\n\n[requirement#SWR-0004]\n[modality=shall, kind=functional, verification=test]\n[refines=SWR-0005, satisfies=SYS-1]\n--\nThe interlock shall stop motion within 50 ms.\n--\n";

#[test]
fn location_names_line_and_byte() {
    assert_eq!(location(SOURCE, 0), "line 1 (byte 0)");
    assert_eq!(location(SOURCE, 9), "line 3 (byte 9)");
    assert_eq!(line_number(SOURCE, 8), 2);
}

#[test]
fn source_location_matches_the_record_span() {
    let records = extract("s.adoc", SOURCE).unwrap();
    let r = &records[0];
    let view = shown(SOURCE, r);
    assert_eq!(view.style.as_deref(), Some("requirement"));
    assert_eq!(view.first_line, 3);
    assert_eq!(view.last_line, 8);
    assert_eq!(r.span.start, SOURCE.find("[requirement").unwrap());
}

#[test]
fn every_trace_key_is_listed_apart_from_plain_attributes() {
    let records = extract("s.adoc", SOURCE).unwrap();
    let view = shown(SOURCE, &records[0]);
    let names = |v: &[(String, String)]| v.iter().map(|(n, _)| n.clone()).collect::<Vec<_>>();
    assert_eq!(names(&view.parsed), ["modality", "kind", "verification"]);
    assert_eq!(names(&view.traces), ["refines", "satisfies"]);
    assert_eq!(view.traces[0].1, "SWR-0005");
}

const TRACES: &str = "= Traces\n\n[requirement#SWR-0005]\n[modality=shall, kind=functional, verification=test]\n--\nThe controller shall log every trip.\n--\n\n[requirement#SWR-0007]\n[modality=shall, kind=functional, verification=test]\n[satisfies=SWR-0005, derives-from=SWR-0004]\n--\nThe controller shall latch a trip.\n--\n";

const MULTILINE: &str = "[requirement#SWR-0001]\n[modality=shall]\n--\nThe system shall boot within 5 s.\n\n.Acceptance\n[.acceptance]\n* cold start\n* warm start\n--\n";
const QUOTED: &str = "[requirement#SWR-0500]\n[modality=shall, rationale=\"a\\\"b, c]\"]\n--\nThe system shall quote.\n--\n";

#[test]
fn every_trace_key_is_listed_and_absent_traces_are_omitted() {
    let records = extract("traces.adoc", TRACES).unwrap();
    let latch = shown(TRACES, &records[1]);
    assert_eq!(
        latch.traces,
        [
            ("satisfies".to_owned(), "SWR-0005".to_owned()),
            ("derives-from".to_owned(), "SWR-0004".to_owned())
        ]
    );
    let log = shown(TRACES, &records[0]);
    assert!(log.traces.is_empty());
    assert_eq!(log.parsed.len(), 3);
}

#[test]
fn missing_id_fails_naming_file_and_id() {
    let records = extract("traces.adoc", TRACES).unwrap();
    let err = vaire::edit::locate("traces.adoc", TRACES, &records, "SWR-9999").unwrap_err().message();
    assert_eq!(err, "traces.adoc: requirement `SWR-9999` not found");
}

#[test]
fn duplicate_id_fails_listing_both_locations() {
    let source = "[requirement#SWR-0100]\n[modality=shall]\n--\nThe first shall hold.\n--\n\n[requirement#SWR-0100]\n[modality=shall]\n--\nThe second shall hold.\n--\n";
    let records = extract("dup.adoc", source).unwrap();
    let err = vaire::edit::locate("dup.adoc", source, &records, "SWR-0100").unwrap_err().message();
    assert!(err.contains("appears 2 times"), "{err}");
    assert!(err.contains("line 1 (byte 0)"), "{err}");
    assert!(err.contains("line 7 (byte"), "{err}");
}

#[test]
fn multiline_body_is_shown_verbatim() {
    let records = extract("multiline.adoc", MULTILINE).unwrap();
    assert_eq!(
        records[0].body_raw,
        "The system shall boot within 5 s.\n\n.Acceptance\n[.acceptance]\n* cold start\n* warm start\n"
    );
}

#[test]
fn quoted_attribute_values_show_raw_and_decoded() {
    let records = extract("quoted.adoc", QUOTED).unwrap();
    let r = &records[0];
    assert_eq!(r.attr_lines[1].raw, "[modality=shall, rationale=\"a\\\"b, c]\"]");
    let view = shown(QUOTED, r);
    assert!(view.parsed.contains(&("rationale".to_owned(), "a\"b, c]".to_owned())));
}

#[test]
fn crlf_source_shows_the_body_verbatim() {
    let source = "[requirement#SWR-0400]\r\n[modality=shall]\r\n--\r\nThe joint controller shall publish a sample within 2 ms.\r\n\r\n====\r\nnested example content\r\n====\r\n--\r\n";
    let records = extract("crlf.adoc", source).unwrap();
    let r = &records[0];
    assert_eq!(r.id, "SWR-0400");
    assert_eq!(shown(source, r).first_line, 1);
    assert!(r.body_raw.contains("The joint controller shall publish a sample within 2 ms.\r\n"));
    assert!(r.body_raw.contains("nested example content\r\n"));
    assert_eq!(r.attr_lines[0].raw, "[requirement#SWR-0400]");
}

#[test]
fn invalid_source_fails_without_panicking() {
    let err = extract("unterminated.adoc", "[requirement#SWR-0001]\n--\nunterminated\n").unwrap_err().message();
    assert!(err.contains("unterminated.adoc"), "{err}");
    assert!(err.contains("parse error"), "{err}");
}
