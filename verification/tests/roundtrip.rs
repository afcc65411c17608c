//! Round trips: extracting and emitting unchanged records changes nothing,
//! and random single-field edits change exactly their own line.

use vaire::emit::emit;
use vaire::extract::extract;
use vaire::Item;

/// A small traced document: a parent and children with assorted fields.
const CORPUS: &str = "= Traces\n\n[requirement#SWR-0005]\n[modality=shall, kind=functional, status=draft]\n[volatility=low]\n--\nThe controller shall log every fault.\n--\n\n[requirement#SWR-0004]\n[modality=shall, kind=functional, verification=test]\n[refines=SWR-0005, status=approved]\n--\nThe interlock shall stop motion within 50 ms.\n--\n\n[requirement#SWR-0007]\n[modality=should, kind=functional, verification=analysis]\n[satisfies=\"SWR-0005, SWR-0004\", volatility=high, status=draft]\n--\nThe display should dim after 30 s.\n\nScale:: seconds\n--\n";

/// Deterministic LCG so the property test is reproducible.
struct Lcg(u64);

impl Lcg {
    fn next(&mut self) -> u64 {
        self.0 = self
            .0
            .wrapping_mul(6364136223846793005)
            .wrapping_add(1442695040888963407);
        self.0 >> 33
    }
}

#[test]
fn round_trip_is_byte_identical() {
    for source in [CORPUS.to_owned(), CORPUS.replace('\n', "\r\n")] {
        let records = extract("c.adoc", &source).unwrap();
        assert_eq!(records.len(), 3);
        assert_eq!(emit(&records, "c.adoc", &source, &source).unwrap(), None);
        for record in &records {
            for line in &record.attr_lines {
                let rendered = vaire::extract::render_attr_line(&line.items).unwrap();
                assert_eq!(rendered, line.raw, "canonical lines render to their bytes");
            }
        }
    }
}

#[test]
fn random_field_edits_change_only_their_lines() {
    let mut rng = Lcg(0x5EED_CAFE);
    let statuses = ["approved", "draft", "rejected"];
    let volatilities = ["low", "high"];
    for trial in 0..64 {
        let records = extract("c.adoc", CORPUS).unwrap();
        let pick = rng.next() as usize % records.len();
        let fields: Vec<(String, String)> = records[pick]
            .fields()
            .into_iter()
            .filter(|(n, _)| n == "status" || n == "volatility" || n == "modality")
            .collect();
        if fields.is_empty() {
            continue;
        }
        let (key, old) = &fields[rng.next() as usize % fields.len()];
        let new_value = match key.as_str() {
            "status" => statuses[rng.next() as usize % statuses.len()].to_owned(),
            "volatility" => volatilities[rng.next() as usize % volatilities.len()].to_owned(),
            _ => ["shall", "should", "may"][rng.next() as usize % 3].to_owned(),
        };
        if &new_value == old {
            continue;
        }
        let mut edited = records.clone();
        for line in &mut edited[pick].attr_lines {
            for item in &mut line.items {
                if let Item::Kv { name, value } = item {
                    if name == key {
                        *value = new_value.clone();
                    }
                }
            }
        }
        let after = emit(&edited, "c.adoc", CORPUS, CORPUS).unwrap().unwrap();
        let before_lines: Vec<&str> = CORPUS.lines().collect();
        let after_lines: Vec<&str> = after.lines().collect();
        assert_eq!(before_lines.len(), after_lines.len(), "line count drifted");
        let changed: Vec<usize> = before_lines
            .iter()
            .zip(&after_lines)
            .enumerate()
            .filter(|(_, (a, b))| a != b)
            .map(|(i, _)| i)
            .collect();
        assert_eq!(changed.len(), 1, "trial {trial}: expected one changed line");
        let line = before_lines[changed[0]];
        assert!(line.starts_with('[') && line.contains(key.as_str()), "trial {trial}: {line}");
        assert!(after_lines[changed[0]].contains(&new_value), "trial {trial}");
        let again = extract("c.adoc", &after).unwrap();
        assert_eq!(emit(&again, "c.adoc", &after, &after).unwrap(), None, "not idempotent");
        assert_eq!(again[pick].field(key).as_deref(), Some(new_value.as_str()));
    }
}
