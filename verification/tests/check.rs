//! Validation rules V1–V6, their order, and the check summary.

use vaire::check::{
    check, check_outcome, count_keyword, count_words, line_of, only_rules, summary, validate,
    ValidationRule, Violation,
};
use vaire::extract::extract;

/// One valid leaf requirement.
const VALID: &str = "[requirement#SWR-0001]\n[modality=shall, kind=functional, verification=test]\n--\nThe system shall boot within 5 s.\n--\n";

/// An unresolved trace target: fails V2 and nothing else.
const UNRESOLVED: &str = "[requirement#SWR-0101]\n[modality=shall, kind=functional, verification=test]\n[refines=SWR-9999]\n--\nThe system shall persist faults across restarts.\n--\n";

/// Prose modality disagrees with the attribute: fails V4 and nothing else.
const DISAGREE: &str = "[requirement#SWR-0103]\n[modality=shall, kind=functional, verification=test]\n--\nThe system may retry dropped samples.\n--\n";

/// Four independent records failing V2, V3, V4, and V6, in that order.
const MIXED: &str = "[requirement#SWR-0101]\n[modality=shall, kind=functional, verification=test]\n[refines=SWR-9999]\n--\nThe system shall persist faults across restarts.\n--\n\n[requirement#SWR-0102]\n[modality=shall, kind=functional]\n--\nThe system shall time-stamp every fault.\n--\n\n[requirement#SWR-0103]\n[modality=shall, kind=functional, verification=test]\n--\nThe system may retry dropped samples.\n--\n\n[requirement#SWR-0105]\n[modality=shall, kind=functional, verification=test]\n[priority=high]\n--\nThe system shall degrade gracefully under load.\n--\n";

/// The summary a check of `MIXED` prints.
const MIXED_SUMMARY: &str = "checked 1 file, 4 requirements, 4 violations\nviolations by rule: V1=0 V2=1 V3=1 V4=1 V5=0 V6=1\n";

/// A parent without verification: it is refined by [`CHILD`].
const PARENT: &str = "[requirement#SWR-0005]\n[modality=shall, kind=functional]\n--\nThe controller shall log every fault.\n--\n";

/// A child refining [`PARENT`].
const CHILD: &str = "[requirement#SWR-0004]\n[modality=shall, kind=functional, verification=test]\n[refines=SWR-0005]\n--\nThe interlock shall stop motion within 50 ms.\n--\n";

/// The same requirement body, to be defined twice across two files.
const SHARED: &str = "[requirement#SWR-DUP]\n[modality=shall, kind=functional, verification=test]\n--\nThe system shall log all faults.\n--\n";

/// A requirement tracing to its own id.
const SELF_TRACED: &str = "[requirement#SELF-1]\n[modality=shall, kind=functional, verification=test]\n[refines=SELF-1]\n--\nThe module shall validate its own inputs.\n--\n";

/// Two requirements refining each other.
const CYCLE: &str = "[requirement#CYC-A]\n[modality=shall, kind=functional]\n[refines=CYC-B]\n--\nThe system shall debounce encoder inputs.\n--\n\n[requirement#CYC-B]\n[modality=shall, kind=functional]\n[refines=CYC-A]\n--\nThe system shall cache encoder reads.\n--\n";

/// Two records; the second (starting on line 7) disagrees on modality.
const TWO_RECORDS: &str = "[requirement#SWR-0001]\n[modality=shall, kind=functional, verification=test]\n--\nThe system shall boot.\n--\n\n[requirement#SWR-0002]\n[modality=shall, kind=functional, verification=test]\n--\nThe system may lag.\n--\n";

fn sources(files: &[(&str, &str)]) -> Vec<(String, String)> {
    files
        .iter()
        .map(|(n, t)| ((*n).to_owned(), (*t).to_owned()))
        .collect()
}

fn run(files: &[(&str, &str)]) -> Vec<Violation> {
    check(&sources(files)).unwrap()
}

fn codes(v: &[Violation]) -> Vec<&'static str> {
    v.iter().map(|x| x.rule.code()).collect()
}

#[test]
fn a_valid_leaf_has_no_violations() {
    assert!(run(&[("valid.adoc", VALID)]).is_empty());
}

#[test]
fn violation_order_follows_the_records() {
    let v = run(&[("mixed.adoc", MIXED)]);
    assert_eq!(codes(&v), ["V2", "V3", "V4", "V6"]);
    assert!(v.iter().all(|x| x.file == "mixed.adoc" && x.line.is_some()));
    assert_eq!(v[0].message, "refines target `SWR-9999` not found");
    assert_eq!(v[1].message, "leaf requirement has no verification attribute");
    assert_eq!(
        v[2].message,
        "prose does not carry modality `shall`: \"The system may retry dropped samples.\""
    );
    assert_eq!(v[3].message, "unknown attribute `priority`");
    assert_eq!(
        v[3].to_line(),
        "V6: mixed.adoc: unknown attribute `priority` [SWR-0105]"
    );
}

#[test]
fn violations_follow_file_argument_order() {
    let a_then_b = codes(&run(&[("a.adoc", DISAGREE), ("b.adoc", UNRESOLVED)]));
    let b_then_a = codes(&run(&[("b.adoc", UNRESOLVED), ("a.adoc", DISAGREE)]));
    assert_eq!(a_then_b, ["V4", "V2"]);
    assert_eq!(b_then_a, ["V2", "V4"]);
}

#[test]
fn cross_file_traces_resolve_across_the_whole_set() {
    assert!(run(&[("parent.adoc", PARENT), ("child.adoc", CHILD)]).is_empty());
    assert_eq!(codes(&run(&[("child.adoc", CHILD)])), ["V2"]);
    assert_eq!(codes(&run(&[("parent.adoc", PARENT)])), ["V3"]);
}

#[test]
fn duplicate_ids_across_files_report_on_the_later_file() {
    for (first, second) in [("one.adoc", "two.adoc"), ("two.adoc", "one.adoc")] {
        let v = run(&[(first, SHARED), (second, SHARED)]);
        assert_eq!(codes(&v), ["V1"]);
        assert_eq!(v[0].file, second);
        assert_eq!(v[0].message, "duplicate requirement id");
    }
}

#[test]
fn self_traces_resolve_but_do_not_parent() {
    assert!(run(&[("self.adoc", SELF_TRACED)]).is_empty());
    let unverified = SELF_TRACED.replace(", verification=test", "");
    assert_eq!(codes(&run(&[("self.adoc", &unverified)])), ["V3"]);
}

#[test]
fn two_requirement_cycles_are_not_detected() {
    assert!(run(&[("cycle.adoc", CYCLE)]).is_empty());
}

#[test]
fn each_unknown_attribute_is_its_own_v6() {
    let src = "[requirement#SWR-0105]\n[modality=shall, kind=functional, verification=test]\n[priority=high, severity=low]\n--\nThe system shall degrade gracefully under load.\n--\n";
    let v = run(&[("two-unknown.adoc", src)]);
    let messages: Vec<&str> = v.iter().map(|x| x.message.as_str()).collect();
    assert_eq!(
        messages,
        ["unknown attribute `priority`", "unknown attribute `severity`"]
    );
    assert!(v.iter().all(|x| x.offset == src.find("[priority").unwrap()));
}

#[test]
fn summary_counts_a_mixed_file() {
    let outcome = check_outcome(&sources(&[("mixed.adoc", MIXED)])).unwrap();
    assert_eq!(outcome.requirement_count, 4);
    assert_eq!(summary(1, &outcome), MIXED_SUMMARY);
}

#[test]
fn summary_on_a_clean_file_reports_zero() {
    let outcome = check_outcome(&sources(&[("valid.adoc", VALID)])).unwrap();
    assert_eq!(
        summary(1, &outcome),
        "checked 1 file, 1 requirement, 0 violations\nviolations by rule: V1=0 V2=0 V3=0 V4=0 V5=0 V6=0\n"
    );
}

#[test]
fn rule_filter_keeps_the_selected_rules_in_order() {
    let v = run(&[("mixed.adoc", MIXED)]);
    let only = only_rules(&v, &[ValidationRule::UnknownAttribute, ValidationRule::ModalityDisagreement]);
    assert_eq!(codes(&only), ["V4", "V6"]);
    assert_eq!(only[0].id, "SWR-0103");
    assert!(only_rules(&v, &[ValidationRule::DuplicateId]).is_empty());
}

#[test]
fn crlf_files_report_the_same_lines_as_lf() {
    let crlf_text = TWO_RECORDS.replace('\n', "\r\n");
    let lf = run(&[("lf.adoc", TWO_RECORDS)]);
    let crlf = run(&[("crlf.adoc", &crlf_text)]);
    assert_eq!(lf.len(), 1);
    assert_eq!(crlf.len(), 1);
    assert_eq!(lf[0].rule, ValidationRule::ModalityDisagreement);
    assert_eq!(lf[0].id, "SWR-0002");
    assert_eq!(lf[0].message, crlf[0].message);
    assert_eq!(lf[0].line, crlf[0].line);
    assert_eq!(lf[0].line, Some(7));
    let offset = TWO_RECORDS.find("[requirement#SWR-0002]").unwrap();
    let terminators = TWO_RECORDS[..offset].matches('\n').count();
    assert_eq!(crlf[0].offset, lf[0].offset + terminators);
}

#[test]
fn a_compound_statement_breaks_v5() {
    let src = VALID.replace("boot within 5 s.", "boot and may restart.");
    assert_eq!(codes(&run(&[("c.adoc", &src)])), ["V5"]);
}

#[test]
fn a_quality_requirement_needs_a_must_entry() {
    let with = "[requirement#QR-1]\n[kind=quality, verification=test]\n--\nBoot time.\n\nScale:: seconds\n  Must:: 5\n--\n";
    assert!(run(&[("q.adoc", with)]).is_empty());
    let without = with.replace("  Must:: 5\n", "");
    let v = run(&[("q.adoc", &without)]);
    assert_eq!(codes(&v), ["V4"]);
    assert_eq!(v[0].message, "quality requirement has no Must entry");
}

#[test]
fn a_missing_modality_attribute_is_matched_as_an_empty_word() {
    // The empty modality occurs wherever no letter or digit touches a
    // position: after a final `.`, but nowhere inside plain words.
    let src = VALID.replace("modality=shall, ", "");
    assert!(run(&[("m.adoc", &src)]).is_empty());
    let bare = src.replace("boot within 5 s.", "boot");
    let v = run(&[("m.adoc", &bare)]);
    assert_eq!(codes(&v), ["V4"]);
    assert_eq!(
        v[0].message,
        "prose does not carry modality ``: \"The system shall boot\""
    );
}

#[test]
fn comma_separated_trace_targets_resolve_one_by_one() {
    let src = "[requirement#A]\n[modality=shall, verification=test]\n[satisfies=\"B, C\"]\n--\nThe system shall trace.\n--\n\n[requirement#B]\n[modality=shall, verification=test]\n--\nThe system shall be B.\n--\n";
    let v = run(&[("t.adoc", src)]);
    assert_eq!(codes(&v), ["V2"]);
    assert_eq!(v[0].message, "satisfies target `C` not found");
}

#[test]
fn keywords_count_as_whole_words_ignoring_case() {
    assert_eq!(count_keyword("The system SHALL boot", "shall"), 1);
    assert_eq!(count_keyword("The system shall boot", "SHALL"), 1);
    assert_eq!(count_keyword("marshall shall shallow", "shall"), 1);
    assert_eq!(count_keyword("may-be may_be maybe", "may"), 2);
    assert_eq!(count_words("shall shall", "shall"), 2);
    assert_eq!(count_words("ab", ""), 0);
    assert_eq!(count_words("a  b", ""), 1);
    assert_eq!(count_words("", ""), 1);
    assert_eq!(count_words("SHALL", "shall"), 0);
}

#[test]
fn lines_count_newlines_before_the_offset() {
    assert_eq!(line_of("a\nb\r\nc", 0), 1);
    assert_eq!(line_of("a\nb\r\nc", 2), 2);
    assert_eq!(line_of("a\nb\r\nc", 5), 3);
    assert_eq!(line_of("a\nb", 99), 2);
}

#[test]
fn a_file_that_does_not_extract_stops_the_check() {
    let error = check(&sources(&[("ok.adoc", VALID), ("bad.adoc", "--\n")])).unwrap_err();
    assert!(matches!(error, vaire::Error::Parse(_)), "{error:?}");
    assert!(error.message().contains("bad.adoc"));
}

#[test]
fn validate_works_on_records_directly() {
    let records = extract("d.adoc", DISAGREE).unwrap();
    let v = validate(&records);
    assert_eq!(codes(&v), ["V4"]);
    assert_eq!(v[0].line, None);
    assert_eq!(v[0].offset, 0);
}

#[test]
fn a_file_named_twice_is_checked_once() {
    let two = "[requirement#SWR-0001]\n[modality=shall, kind=functional, verification=test]\n--\nThe system shall boot.\n--\n\n[requirement#SWR-0002]\n[modality=shall, kind=functional, verification=test]\n--\nThe system shall log.\n--\n";
    let f = ("f.adoc".to_owned(), two.to_owned());
    assert_eq!(check(&[f.clone(), f.clone()]).unwrap(), Vec::<Violation>::new());
    assert_eq!(check(&[f.clone()]).unwrap(), Vec::<Violation>::new());
    let twice = check_outcome(&[f.clone(), f.clone()]).unwrap();
    assert_eq!(twice.requirement_count, 2);
    let none = check_outcome(&[]).unwrap();
    assert_eq!(none.requirement_count, 0);
    assert!(none.violations.is_empty());
}

#[test]
fn an_indented_requirement_stops_the_check() {
    let indented = ("i.adoc".to_owned(), "[requirement#SWR-0001]\n  --\n  body\n  --\n".to_owned());
    let err = check(&[("v.adoc".to_owned(), VALID.to_owned()), indented]).unwrap_err();
    assert!(err.message().contains("indented"), "{}", err.message());
}
