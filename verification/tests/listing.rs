//! Listing: record selection and statement shortening.

use vaire::extract::extract;
use vaire::listing::{
    check_file_selection, distinct_paths, parse_attr, selects, shows_file, truncate, ListFilter,
    Modality,
};

const TRACES: &str = "[requirement#SWR-0005]\n[modality=shall, kind=functional, status=draft]\n--\nThe controller shall log every fault.\n--\n\n[requirement#SWR-0004]\n[modality=should, kind=functional, verification=test]\n[refines=SWR-0005]\n--\nThe interlock should stop motion within 50 ms.\n--\n\n[requirement#SWR-0600]\n[modality=may, satisfies=\"SWR-0005, SWR-0006\"]\n--\nThe system may trace to both.\n--\n";

fn none() -> ListFilter {
    ListFilter {
        id: None,
        attrs: Vec::new(),
        modality: None,
        status: None,
        verification: None,
        traces: Vec::new(),
    }
}

fn listed(filter: &ListFilter) -> Vec<String> {
    extract("t.adoc", TRACES)
        .unwrap()
        .iter()
        .filter(|r| selects(r, filter))
        .map(|r| r.id.clone())
        .collect()
}

#[test]
fn no_filter_lists_every_record_in_source_order() {
    assert_eq!(listed(&none()), ["SWR-0005", "SWR-0004", "SWR-0600"]);
}

#[test]
fn id_prefix_filter_matches_one_or_many() {
    let mut f = none();
    f.id = Some("SWR-000".to_owned());
    assert_eq!(listed(&f), ["SWR-0005", "SWR-0004"]);
    f.id = Some("SWR-0600".to_owned());
    assert_eq!(listed(&f), ["SWR-0600"]);
    f.id = Some("NOPE".to_owned());
    assert!(listed(&f).is_empty());
}

#[test]
fn filters_combine_with_and_semantics() {
    let mut f = none();
    f.attrs = vec![("kind".to_owned(), "functional".to_owned())];
    assert_eq!(listed(&f), ["SWR-0005", "SWR-0004"]);
    f.modality = Some(Modality::Should);
    assert_eq!(listed(&f), ["SWR-0004"]);
    f.verification = Some("test".to_owned());
    assert_eq!(listed(&f), ["SWR-0004"]);
    f.status = Some("draft".to_owned());
    assert!(listed(&f).is_empty());
}

#[test]
fn case_sensitive_exact_filters_do_not_forgive_case() {
    let mut f = none();
    f.status = Some("Draft".to_owned());
    assert!(listed(&f).is_empty());
    f.status = Some("draft".to_owned());
    assert_eq!(listed(&f), ["SWR-0005"]);
}

#[test]
fn traces_filter_counts_comma_separated_field_values() {
    let mut f = none();
    f.traces = vec!["SWR-0005".to_owned()];
    assert_eq!(listed(&f), ["SWR-0004", "SWR-0600"]);
    f.traces = vec!["SWR-0005".to_owned(), "SWR-0006".to_owned()];
    assert_eq!(listed(&f), ["SWR-0600"]);
}

#[test]
fn modality_names_the_attribute_value() {
    assert_eq!(Modality::Shall.as_str(), "shall");
    assert_eq!(Modality::Should.as_str(), "should");
    assert_eq!(Modality::May.as_str(), "may");
}

#[test]
fn attr_arguments_split_on_the_first_equals() {
    assert_eq!(
        parse_attr("kind=functional=x"),
        Ok(("kind".to_owned(), "functional=x".to_owned()))
    );
    assert_eq!(parse_attr("status="), Ok(("status".to_owned(), String::new())));
    assert_eq!(parse_attr("=x"), Err("expected KEY=VALUE".to_owned()));
    assert_eq!(parse_attr("novalue"), Err("expected KEY=VALUE".to_owned()));
}

#[test]
fn long_statements_are_cut_at_sixty_characters() {
    let short = "The system shall boot.";
    assert_eq!(truncate(short), short);
    let exact: String = "x".repeat(60);
    assert_eq!(truncate(&exact), exact);
    let long = format!("{} tail", "a".repeat(57));
    assert_eq!(truncate(&long), format!("{} ta…", "a".repeat(57)));
    let spaced = format!("{} tail", "a".repeat(59));
    assert_eq!(truncate(&spaced), format!("{}…", "a".repeat(59)));
    let unicode: String = "é".repeat(70);
    assert_eq!(truncate(&unicode), format!("{}…", "é".repeat(60)));
}

#[test]
fn file_flag_restricts_output_and_rejects_unknown_paths() {
    let files = vec!["misc.adoc".to_owned(), "traces.adoc".to_owned()];
    assert_eq!(check_file_selection(&files, &["traces.adoc".to_owned()]), Ok(()));
    assert_eq!(check_file_selection(&files, &[]), Ok(()));
    assert_eq!(
        check_file_selection(&files, &["traces.adoc".to_owned(), "nope.adoc".to_owned()]),
        Err("--file nope.adoc is not among the files given: misc.adoc, traces.adoc".to_owned())
    );
    assert!(shows_file(&["traces.adoc".to_owned()], "traces.adoc"));
    assert!(!shows_file(&["traces.adoc".to_owned()], "misc.adoc"));
    assert!(shows_file(&[], "misc.adoc"));
}

#[test]
fn duplicate_file_arguments_are_read_once() {
    let args = |v: &[&str]| v.iter().map(|s| s.to_string()).collect::<Vec<_>>();
    assert_eq!(distinct_paths(&args(&["two.adoc", "two.adoc"])), args(&["two.adoc"]));
    assert_eq!(
        distinct_paths(&args(&["b.adoc", "a.adoc", "b.adoc", "c.adoc", "a.adoc"])),
        args(&["b.adoc", "a.adoc", "c.adoc"])
    );
    assert!(distinct_paths(&[]).is_empty());
    let source = "[requirement#SWR-0001]\n[modality=shall]\n--\nThe system shall beep.\n--\n\n[requirement#SWR-0002]\n[modality=shall]\n--\nThe system shall log.\n--\n";
    let mut all = Vec::new();
    for file in distinct_paths(&args(&["two.adoc", "two.adoc"])) {
        all.extend(extract(&file, source).unwrap());
    }
    assert_eq!(all.len(), 2, "not 4: repeated path is read once");
}
