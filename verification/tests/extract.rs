//! Extraction spans and delimiter handling: LF/CRLF parity, block shapes,
//! and the rejection rules for requirement blocks.

use vaire::check::{validate, ValidationRule, Violation};
use vaire::extract::block_kind;
use vaire::outline::{BlockShape, DelimitedNode};
use vaire::{Error, Record};

fn extract(source: &str) -> Result<Vec<Record>, Error> {
    vaire::extract::extract("t.adoc", source)
}

fn violations(source: &str) -> Vec<Violation> {
    validate(&extract(source).unwrap())
}

fn rules(v: &[Violation]) -> Vec<ValidationRule> {
    v.iter().map(|x| x.rule).collect()
}

/// The CRLF twin of `source`: every LF terminator becomes CRLF.
fn crlf(source: &str) -> String {
    source.replace('\n', "\r\n")
}

/// A minimal valid requirement, used to derive CRLF and edge-case variants.
const VALID: &str = "[requirement#SWR-0001]\n\
                     [modality=shall, kind=functional, verification=test]\n\
                     [status=draft]\n\
                     --\n\
                     The system shall beep.\n\
                     --\n";

#[test]
fn unterminated_block_is_a_parse_error_naming_file_and_location() {
    for source in [
        "[requirement#SWR-0001]\n--\nbody\n\nand more prose\n".to_owned(),
        "[requirement#SWR-0001]\r\n--\r\nbody\r\n".to_owned(),
        "--\n".to_owned(),
    ] {
        let error = extract(&source).unwrap_err();
        let message = error.message();
        assert!(message.contains("t.adoc"), "names the file: {message}");
        assert!(message.contains("line "), "gives the line: {message}");
        assert!(
            message.contains("byte offset"),
            "gives the offset: {message}"
        );
        assert!(message.contains("unterminated"), "{message}");
    }
}

#[test]
fn a_block_with_one_blank_body_line_is_valid() {
    let records = extract("[requirement#SWR-0302]\n--\n\n--\n").unwrap();
    assert_eq!(records.len(), 1);
    assert_eq!(records[0].body_raw, "\n");
}

#[test]
fn indented_requirement_is_rejected() {
    for source in [
        "[requirement#SWR-0001]\n[status=draft]\n\t--\nbody\n\t--\n".to_owned(),
        "[requirement#SWR-0001]\r\n  --\r\n  body\r\n  --\r\n".to_owned(),
    ] {
        let error = extract(&source).unwrap_err();
        let message = error.message();
        assert!(message.contains("t.adoc"), "names the file: {message}");
        assert!(message.contains("indented"), "{message}");
        assert!(message.contains("line "), "gives the line: {message}");
    }
    let records = extract("[.note]\n  --\n  not a requirement\n  --\n").unwrap();
    assert!(records.is_empty());
}

#[test]
fn example_block_with_requirement_style_is_rejected() {
    let source = "[requirement#SWR-0303]\n====\nThe system shall not be an example.\n====\n";
    for source in [source.to_owned(), crlf(source)] {
        let message = extract(&source).unwrap_err().message();
        assert!(message.contains("t.adoc"), "names the file: {message}");
        assert!(message.contains("===="), "names the delimiter: {message}");
        assert!(message.contains("line "), "gives the line: {message}");
        assert!(message.contains("only `--` open blocks"), "{message}");
    }
}

#[test]
fn a_large_body_is_preserved_byte_for_byte() {
    let lines: Vec<String> = (0..400).map(|i| format!("body line {i}")).collect();
    let source = format!(
        "[requirement#SWR-0009]\n\
         [modality=shall, kind=functional, verification=test]\n\
         --\n{}\n--\n",
        lines.join("\n")
    );
    let records = extract(&source).unwrap();
    assert_eq!(records.len(), 1);
    let body: Vec<String> = records[0].body_raw.lines().map(str::to_owned).collect();
    assert_eq!(body.len(), 400);
    assert_eq!(body[0], "body line 0");
    assert_eq!(body[399], "body line 399");
    assert_eq!(records[0].body_raw, lines.join("\n") + "\n");
}

/// Any input may be extracted without panicking; successful records always
/// describe substrings of the source with in-range spans.
#[test]
fn malformed_input_never_panics() {
    let cases = [
        "",
        "\n",
        "--",
        "--\n",
        "--\n--",
        "--\n--\n--\n--\n",
        "\r\n--\r\n--\r\n",
        "[",
        "[]",
        "[#]",
        "[a#b#c]",
        "[requirement#X]",
        "[requirement#X]\n--",
        "[requirement#X]\n--\n",
        "[requirement#X]\n====\n",
        "====\n====\n",
        "text\n--\n",
        "\r",
        "\r\n",
        "[requirement#X]\r[status=draft]\r--\r",
        "\0\n--\n\0\n--\n",
        "[\u{0}]\n--\n\u{1}\n--\n",
        "[requirement#X]\n--\n日本語 — ✨ body\n--\n",
        "[requirement#Ünïcode-✓]\n--\nbødy\n--\n",
        "[requirement#X]\n--\nbody\r--\n--\n",
    ];
    for source in cases {
        if let Ok(records) = extract(source) {
            for record in &records {
                assert_eq!(record.delim, "--");
                assert!(!record.id.is_empty());
                assert!(record.span.start <= record.span.end);
                assert!(record.span.end <= source.len(), "{record:?}");
                assert!(source.contains(record.body_raw.as_str()), "{record:?}");
                for line in &record.attr_lines {
                    assert!(line.start <= line.end);
                    assert!(line.end <= source.len());
                    assert!(source.contains(line.raw.as_str()));
                }
            }
        }
    }
}

#[test]
fn check_treats_crlf_like_lf() {
    let disagreement = VALID.replace("shall beep", "may beep");
    for source in [VALID.to_owned(), crlf(VALID)] {
        assert!(violations(&source).is_empty(), "valid CRLF must not raise V4");
    }
    for source in [disagreement.clone(), crlf(&disagreement)] {
        assert_eq!(
            rules(&violations(&source)),
            vec![ValidationRule::ModalityDisagreement],
            "a real disagreement still raises exactly V4"
        );
    }
}

#[test]
fn lf_and_clf_extract_with_identical_semantics() {
    let lf_records = extract(VALID).unwrap();
    let crlf_records = extract(&crlf(VALID)).unwrap();
    assert_eq!(lf_records.len(), 1);
    assert_eq!(crlf_records.len(), 1);
    let (l, c) = (&lf_records[0], &crlf_records[0]);
    assert_eq!(l.id, c.id);
    assert_eq!(l.delim, c.delim);
    assert_eq!(l.statement(), c.statement());
    assert_eq!(l.attr_lines.len(), c.attr_lines.len());
    for (a, b) in l.attr_lines.iter().zip(&c.attr_lines) {
        assert_eq!(a.raw, b.raw);
        assert_eq!(a.items, b.items);
    }
    assert_eq!(c.body_raw, l.body_raw.replace('\n', "\r\n"));
    assert_eq!(c.body_raw, "The system shall beep.\r\n");
}

#[test]
fn blocks_with_and_without_trailing_newline_extract_the_same_body() {
    let records = extract(VALID).unwrap();
    let r = &records[0];
    assert_eq!(r.id, "SWR-0001");
    assert_eq!(r.span.start, 0);
    assert_eq!(r.span.end, VALID.len() - 1, "ends before the newline");
    assert_eq!(r.attr_lines.len(), 3);
    assert_eq!(r.attr_lines[0].raw, "[requirement#SWR-0001]");
    assert_eq!(r.attr_lines[2].raw, "[status=draft]");
    assert_eq!(r.attr_lines[2].start, VALID.find("[status").unwrap());
    assert_eq!(r.body_raw, "The system shall beep.\n");
    let without = VALID.trim_end_matches('\n');
    let records = extract(without).unwrap();
    assert_eq!(records[0].body_raw, "The system shall beep.\n");
    assert_eq!(records[0].span.end, without.len());
}

#[test]
fn several_requirements_extract_in_source_order() {
    let source = format!(
        "{VALID}\n{}\nSome prose.\n\n{}",
        VALID.replace("SWR-0001", "SWR-0002"),
        VALID.replace("SWR-0001", "SWR-0003")
    );
    let records = extract(&source).unwrap();
    let ids: Vec<&str> = records.iter().map(|r| r.id.as_str()).collect();
    assert_eq!(ids, ["SWR-0001", "SWR-0002", "SWR-0003"]);
    for pair in records.windows(2) {
        assert!(pair[0].span.end <= pair[1].span.start, "spans ascend");
    }
}

#[test]
fn a_title_above_the_attributes_stays_outside_the_record() {
    let source = ".A title\n[requirement#SWR-0307]\n[modality=shall]\n--\nThe system shall carry a title above its attribute lines.\n--\n";
    let records = extract(source).unwrap();
    assert_eq!(records.len(), 1);
    assert_eq!(records[0].span.start, source.find("[requirement#SWR-0307]").unwrap());
    assert_eq!(
        records[0].statement(),
        "The system shall carry a title above its attribute lines."
    );
}

#[test]
fn crlf_body_raw_keeps_crlf_terminators() {
    let records = extract(&crlf(VALID)).unwrap();
    assert_eq!(records.len(), 1);
    assert_eq!(records[0].body_raw, "The system shall beep.\r\n");
    assert_eq!(records[0].delim, "--");
    assert_eq!(records[0].statement(), "The system shall beep.");
}

#[test]
fn multiple_crlf_requirements_extract_in_source_order() {
    let source = crlf(
        "[requirement#SWR-0310]\n[modality=shall]\n--\nThe system shall boot within 5 s.\n--\n\n\
         [requirement#SWR-0311]\n[modality=may]\n--\nThe debug port may be disabled.\n--\n\n\
         [requirement#SWR-0312]\n[kind=quality]\n--\nScale:: uninterrupted hours\nMeter:: soak test\nMust:: 500\n--\n",
    );
    let records = extract(&source).unwrap();
    let ids: Vec<&str> = records.iter().map(|r| r.id.as_str()).collect();
    assert_eq!(ids, ["SWR-0310", "SWR-0311", "SWR-0312"]);
    let bodies: Vec<&str> = records.iter().map(|r| r.body_raw.as_str()).collect();
    assert_eq!(
        bodies,
        [
            "The system shall boot within 5 s.\r\n",
            "The debug port may be disabled.\r\n",
            "Scale:: uninterrupted hours\r\nMeter:: soak test\r\nMust:: 500\r\n",
        ]
    );
    for pair in records.windows(2) {
        assert!(pair[0].span.end <= pair[1].span.start, "spans ascend");
    }
}

#[test]
fn mixed_line_endings_extract_with_their_own_terminators() {
    let source = "[requirement#SWR-0320]\n[modality=shall]\r\n--\nThe system shall tolerate mixed line endings.\r\n--\n";
    let records = extract(source).unwrap();
    assert_eq!(records.len(), 1, "mixed endings are supported");
    assert_eq!(records[0].id, "SWR-0320");
    assert_eq!(
        records[0].body_raw,
        "The system shall tolerate mixed line endings.\r\n"
    );
}

#[test]
fn nested_example_inside_the_body_is_preserved() {
    let body = "The controller shall log nested examples.\n\n.An example inside the requirement body\n[.example]\n====\nAn example nested inside a requirement.\n====\n";
    let source = format!("[requirement#SWR-0306]\n[modality=shall]\n--\n{body}--\n");
    let records = extract(&source).unwrap();
    assert_eq!(records.len(), 1);
    assert_eq!(records[0].body_raw, body);
    assert!(records[0].statement().contains("shall"));
}

#[test]
fn lone_cr_is_one_line_with_no_requirements() {
    let records = extract("[requirement#SWR-0001]\r--\rThe system shall beep.\r--\r").unwrap();
    assert!(records.is_empty(), "lone CR is not a line terminator");
}

#[test]
fn block_kind_names_open_and_example_blocks() {
    let node = |shape| DelimitedNode {
        style: Some("requirement".to_owned()),
        delimiter: "--".to_owned(),
        shape,
        open_line: Some(2),
        close_line: Some(4),
        children: Vec::new(),
    };
    assert_eq!(block_kind(&node(BlockShape::Open)), "open");
    assert_eq!(block_kind(&node(BlockShape::Example)), "example");
    assert_eq!(block_kind(&node(BlockShape::Sidebar)), "other");
    assert_eq!(block_kind(&node(BlockShape::Listing)), "other");
}
