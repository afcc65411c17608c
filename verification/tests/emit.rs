//! `emit`: planning splices against the live records, refusing stale or
//! structural changes, and splicing without touching other bytes.

use vaire::emit::{apply_edits, id_items, plan, plan_against, require_same_file, Edit};
use vaire::extract::extract;
use vaire::{Error, Item, Record};

const SOURCE: &str = "[requirement#SWR-0001]\n[status=draft]\n--\nThe system shall beep.\n--\n";

const TWO: &str = "[requirement#SWR-0001]\n[modality=shall, status=draft]\n[volatility=low]\n--\nThe system shall beep.\n--\n\n[requirement#SWR-0002]\n[modality=shall, status=draft]\n--\nThe system shall log.\n--\n";

fn records(source: &str) -> Vec<Record> {
    extract("t.adoc", source).unwrap()
}

fn set_status(records: &mut [Record], value: &str) {
    for record in records {
        for line in &mut record.attr_lines {
            for item in &mut line.items {
                if let Item::Kv { name, value: v } = item {
                    if name == "status" {
                        *v = value.to_owned();
                    }
                }
            }
        }
    }
}

fn refusal(result: Result<Vec<Edit>, Error>) -> String {
    match result.unwrap_err() {
        Error::Unrepresentable(m) => m,
        other => panic!("expected a refusal, got {other:?}"),
    }
}

#[test]
fn plan_reports_edit_without_touching_the_source() {
    let mut edited = records(SOURCE);
    set_status(&mut edited, "active");
    let edits = plan(&edited, "t.adoc", SOURCE).unwrap();
    assert_eq!(edits.len(), 1);
    assert_eq!(edits[0].id, "SWR-0001");
    assert_eq!(edits[0].old, "[status=draft]");
    assert_eq!(edits[0].new, "[status=active]");
    assert_eq!(edits[0].start, SOURCE.find("[status").unwrap());
}

#[test]
fn plan_is_empty_when_nothing_differs() {
    let mut same = records(SOURCE);
    set_status(&mut same, "draft");
    assert!(plan(&same, "t.adoc", SOURCE).unwrap().is_empty());
    assert!(plan(&records(TWO), "t.adoc", TWO).unwrap().is_empty());
}

#[test]
fn emit_applies_the_planned_edit() {
    let mut edited = records(SOURCE);
    set_status(&mut edited, "active");
    let edits = plan(&edited, "t.adoc", SOURCE).unwrap();
    let after = apply_edits("t.adoc", SOURCE, &edits).unwrap();
    assert_eq!(after, SOURCE.replace("[status=draft]", "[status=active]"));
    assert!(after.contains("The system shall beep."));
}

#[test]
fn edits_come_by_descending_start_and_splice_together() {
    let mut edited = records(TWO);
    set_status(&mut edited, "active");
    let edits = plan(&edited, "t.adoc", TWO).unwrap();
    assert_eq!(edits.len(), 2);
    assert!(edits[0].start > edits[1].start);
    assert_eq!(edits[0].id, "SWR-0002");
    let after = apply_edits("t.adoc", TWO, &edits).unwrap();
    assert_eq!(after, TWO.replace("status=draft", "status=active"));
}

#[test]
fn an_empty_plan_leaves_the_text_alone() {
    assert_eq!(apply_edits("t.adoc", TWO, &[]).unwrap(), TWO);
}

#[test]
fn crlf_splices_keep_their_terminators() {
    let crlf = SOURCE.replace('\n', "\r\n");
    let mut edited = records(&crlf);
    set_status(&mut edited, "active");
    let edits = plan(&edited, "t.adoc", &crlf).unwrap();
    let after = apply_edits("t.adoc", &crlf, &edits).unwrap();
    assert_eq!(after, crlf.replace("[status=draft]", "[status=active]"));
    assert!(after.contains("[status=active]\r\n"));
    assert!(plan(&records(&after), "t.adoc", &after).unwrap().is_empty());
}

#[test]
fn a_value_with_a_line_break_is_rejected_and_nothing_planned() {
    for value in ["beep\nboop", "beep\rboop"] {
        let mut edited = records(SOURCE);
        set_status(&mut edited, value);
        let message = refusal(plan(&edited, "t.adoc", SOURCE));
        assert!(message.contains("line break"), "{message}");
        assert!(message.contains("single-line"), "{message}");
    }
}

#[test]
fn emit_rejects_an_unknown_record_id() {
    let mut edited = records(SOURCE);
    edited[0].id = "SWR-9999".to_owned();
    assert_eq!(
        refusal(plan(&edited, "t.adoc", SOURCE)),
        "t.adoc: record SWR-9999 not found in file (ids are immutable)"
    );
}

#[test]
fn emit_rejects_a_mutated_id_item() {
    let mut edited = records(SOURCE);
    edited[0].attr_lines[0].items[1] = Item::Id("SWR-0002".to_owned());
    assert_eq!(
        refusal(plan(&edited, "t.adoc", SOURCE)),
        "t.adoc: record SWR-0001: id attribute item changed (ids are immutable)"
    );
}

#[test]
fn emit_rejects_a_mutated_delimiter() {
    let mut edited = records(SOURCE);
    edited[0].delim = "====".to_owned();
    assert!(refusal(plan(&edited, "t.adoc", SOURCE)).contains("block delimiter changed"));
}

#[test]
fn emit_rejects_a_mutated_body() {
    let mut edited = records(SOURCE);
    edited[0].body_raw = "The system shall not beep.\n".to_owned();
    assert!(refusal(plan(&edited, "t.adoc", SOURCE)).contains("bodies are not editable"));
}

#[test]
fn emit_rejects_a_mutated_span() {
    let mut edited = records(SOURCE);
    edited[0].span.start += 1;
    assert!(refusal(plan(&edited, "t.adoc", SOURCE)).contains("byte span changed"));
}

#[test]
fn emit_rejects_a_changed_attribute_line_count() {
    let mut edited = records(SOURCE);
    edited[0].attr_lines.pop();
    assert_eq!(
        refusal(plan(&edited, "t.adoc", SOURCE)),
        "t.adoc: record SWR-0001: attribute line count changed"
    );
}

#[test]
fn emit_rejects_duplicate_records() {
    let mut edited = records(SOURCE);
    edited.push(edited[0].clone());
    assert_eq!(
        refusal(plan(&edited, "t.adoc", SOURCE)),
        "t.adoc: record SWR-0001 supplied more than once"
    );
}

#[test]
fn a_line_that_changed_after_the_records_were_built_is_rejected() {
    let mut edited = records(TWO);
    set_status(&mut edited[..1], "active");
    let conflicting = TWO.replacen("status=draft", "status=dr@ft", 1);
    let message = refusal(plan(&edited, "t.adoc", &conflicting));
    assert!(message.contains("changed since"), "{message}");
    assert!(message.contains("re-extract"), "{message}");
    assert!(message.contains("\"[modality=shall, status=draft]\""), "{message}");
    assert!(message.contains("\"[modality=shall, status=dr@ft]\""), "{message}");
}

#[test]
fn emit_rejects_when_bytes_were_inserted_before_the_record() {
    let mut edited = records(SOURCE);
    set_status(&mut edited, "active");
    let shifted = format!("Intro.\n\n{SOURCE}");
    assert!(refusal(plan(&edited, "t.adoc", &shifted)).contains("byte span changed"));
}

#[test]
fn a_stale_plan_does_not_splice() {
    let mut edited = records(SOURCE);
    set_status(&mut edited, "active");
    let edits = plan(&edited, "t.adoc", SOURCE).unwrap();
    let changed = SOURCE.replace("[status=draft]", "[status=DRAFT]");
    match apply_edits("t.adoc", &changed, &edits).unwrap_err() {
        Error::Unrepresentable(m) => assert_eq!(
            m,
            "t.adoc: source changed since the records were extracted (record SWR-0001, attribute line at byte 23 no longer matches); re-extract and re-apply"
        ),
        other => panic!("{other:?}"),
    }
}

#[test]
fn overlapping_edits_do_not_splice() {
    let edit = |start: usize, end: usize| Edit {
        id: "X".to_owned(),
        start,
        end,
        old: TWO[start..end].to_owned(),
        new: "[a=b]".to_owned(),
    };
    let edits = [edit(23, 53), edit(30, 40)];
    assert!(apply_edits("t.adoc", TWO, &edits).is_err());
}

#[test]
fn records_from_another_file_are_refused() {
    let recs = records(SOURCE);
    let ok = [Ok("/abs/t.adoc".to_owned())];
    assert!(require_same_file(&recs, "t.adoc", &ok, "/abs/t.adoc").is_ok());
    let other = [Ok("/abs/other.adoc".to_owned())];
    let message = require_same_file(&recs, "t.adoc", &other, "/abs/t.adoc")
        .unwrap_err()
        .message();
    assert_eq!(
        message,
        "unrepresentable: t.adoc: record SWR-0001 was extracted from \"t.adoc\", not this file; re-extract from the file being edited"
    );
    let gone = [Err("No such file or directory (os error 2)".to_owned())];
    let message = require_same_file(&recs, "t.adoc", &gone, "/abs/t.adoc")
        .unwrap_err()
        .message();
    assert!(message.contains("which does not resolve (No such file"), "{message}");
}

#[test]
fn id_items_list_the_ids_of_a_line() {
    let recs = records(SOURCE);
    assert_eq!(id_items(&recs[0].attr_lines[0]), vec!["SWR-0001".to_owned()]);
    assert!(id_items(&recs[0].attr_lines[1]).is_empty());
}

#[test]
fn the_live_records_plan_nothing_against_themselves() {
    let live = records(TWO);
    assert!(plan_against("t.adoc", &live, &live).unwrap().is_empty());
}

#[test]
fn emit_writes_the_planned_text_or_nothing() {
    let mut edited = records(SOURCE);
    set_status(&mut edited, "active");
    let written = vaire::emit::emit(&edited, "t.adoc", SOURCE, SOURCE).unwrap();
    assert_eq!(
        written.as_deref(),
        Some(SOURCE.replace("[status=draft]", "[status=active]").as_str())
    );
    let fresh = records(SOURCE);
    assert_eq!(vaire::emit::emit(&fresh, "t.adoc", SOURCE, SOURCE).unwrap(), None);
}

#[test]
fn emit_refuses_a_source_that_changed_before_the_write() {
    let mut edited = records(SOURCE);
    set_status(&mut edited, "active");
    let changed = SOURCE.replace("[status=draft]", "[status=dr@ft]");
    let error = vaire::emit::emit(&edited, "t.adoc", SOURCE, &changed).unwrap_err();
    assert!(error.message().contains("source changed since the records were extracted"));
}
