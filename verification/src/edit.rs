//! Direct attribute editing: set named attributes on one located requirement.
//!
//! The requested sets overwrite attribute values in the one record named by
//! id, and the edited record set is planned against the live records exactly
//! as `emit` plans a record set. A set can only overwrite the value of a `Kv`
//! item the record already carries, so an edit never adds, removes or
//! restructures an attribute line, never touches id or style items, and
//! never touches the body. Every attribute line carrying an edited key is
//! rewritten, so no shadowed stale value survives.
use vstd::prelude::*;
use vstd::string::StringSliceAdditionalSpecFns;

use crate::check::{is_known_key, known_key};
use crate::quoting::{find, find_char, join};
use crate::record::{fields_of, item_kvs, last_value, line_kvs, lookup, pairs_view, Pair};
use crate::show::{location, location_text};
use crate::text::{chars_of, decimal, push_decimal, push_str, str_eq, str_to_string, string_of_range};
use crate::check::ids_of;
use crate::emit::{
    applied, apply_edits, edit_views, line_edits, live_index, plan_against, plan_matches, plan_upto,
    planned,
    record_edits, unique_ids, Edit, EditView,
};
use crate::extract::{all_in_source, extracted, record_in_source, records_of_outline};
use crate::outline::Outline;
use vstd::utf8::encode_utf8;
use crate::{items_view, AttrLine, Error, Item, ItemView, Record};

verus! {

/// One `KEY=VALUE` attribute assignment.
#[derive(Debug, Clone, PartialEq, Eq)]
pub struct Assignment {
    /// The attribute name; the target record must already carry it.
    pub key: String,
    /// The replacement value, verbatim; rendering quotes and escapes it as
    /// the attribute-line grammar needs.
    pub value: String,
}

/// What parsing `raw` as `KEY=VALUE` gives: the text before the first `=`
/// and the text after it, or the refusal.
pub open spec fn set_parsed(raw: Seq<char>) -> Result<(Seq<char>, Seq<char>), Seq<char>> {
    let p = find(raw, '=');
    if p < 0 {
        Err("expected KEY=VALUE, got `"@ + raw + "`"@)
    } else if p == 0 {
        Err("empty attribute name in `"@ + raw + "`"@)
    } else {
        Ok((raw.subrange(0, p), raw.subrange(p + 1, raw.len() as int)))
    }
}

impl Assignment {
    /// Parse one `KEY=VALUE` argument: the first `=` splits, so the value
    /// may contain further `=` characters.
    pub fn parse(raw: &str) -> (r: Result<Assignment, Error>)
        ensures
            match set_parsed(raw@) {
                Ok(kv) => r matches Ok(s) && s.key@ == kv.0 && s.value@ == kv.1,
                Err(m) => r matches Err(Error::Validation(x)) && x@ == m,
            },
    {
        let v = chars_of(raw);
        assert(v@.subrange(0, v@.len() as int) =~= v@);
        match find_char(v.as_slice(), 0, v.len(), '=') {
            None => {
                let mut m = str_to_string("expected KEY=VALUE, got `");
                push_str(&mut m, raw);
                push_str(&mut m, "`");
                Err(Error::Validation(m))
            },
            Some(p) => {
                if p == 0 {
                    let mut m = str_to_string("empty attribute name in `");
                    push_str(&mut m, raw);
                    push_str(&mut m, "`");
                    Err(Error::Validation(m))
                } else {
                    let key = string_of_range(v.as_slice(), 0, p);
                    let value = string_of_range(v.as_slice(), p + 1, v.len());
                    Ok(Assignment { key, value })
                }
            },
        }
    }
}

/// The views of a list of sets, as key and value.
pub open spec fn sets_view(sets: Seq<Assignment>) -> Seq<(Seq<char>, Seq<char>)> {
    sets.map_values(|s: Assignment| (s.key@, s.value@))
}

/// Why a structural name cannot be set: id and style belong to the
/// positional grammar, and the body is not an attribute at all.
pub open spec fn structural(key: Seq<char>) -> Option<Seq<char>> {
    if key == "id"@ {
        Some("ids are immutable"@)
    } else if key == "style"@ {
        Some("style is positional grammar, not a named attribute"@)
    } else if key == "body"@ {
        Some("bodies are not editable via edit"@)
    } else {
        None
    }
}

/// Why a structural name cannot be set, if `key` is one.
pub fn structural_reason(key: &str) -> (r: Option<&'static str>)
    ensures
        match structural(key@) {
            Some(m) => r matches Some(s) && s@ == m,
            None => r is None,
        },
{
    if str_eq(key, "id") {
        Some("ids are immutable")
    } else if str_eq(key, "style") {
        Some("style is positional grammar, not a named attribute")
    } else if str_eq(key, "body") {
        Some("bodies are not editable via edit")
    } else {
        None
    }
}

/// Item `it` is the named attribute `key`.
pub open spec fn is_kv_named(it: ItemView, key: Seq<char>) -> bool {
    it matches ItemView::Kv { name, .. } && name == key
}

/// Some attribute line of `r` carries `key` as a named attribute.
pub open spec fn carries_key(r: Record, key: Seq<char>) -> bool {
    exists|l: int, i: int|
        0 <= l < r.attr_lines@.len() && 0 <= i < r.attr_lines@[l].items@.len() && is_kv_named(
            #[trigger] r.attr_lines@[l].items@[i]@,
            key,
        )
}

/// Whether any attribute line of `record` carries `key` as a named
/// attribute.
pub fn carries(record: &Record, key: &str) -> (r: bool)
    ensures
        r == carries_key(*record, key@),
{
    let mut l: usize = 0;
    while l < record.attr_lines.len()
        invariant
            l <= record.attr_lines@.len(),
            forall|a: int, i: int|
                0 <= a < l && 0 <= i < record.attr_lines@[a].items@.len() ==> !is_kv_named(
                    #[trigger] record.attr_lines@[a].items@[i]@,
                    key@,
                ),
        decreases record.attr_lines@.len() - l,
    {
        let line = &record.attr_lines[l];
        let mut i: usize = 0;
        while i < line.items.len()
            invariant
                i <= line.items@.len(),
                l < record.attr_lines@.len(),
                *line == record.attr_lines@[l as int],
                forall|j: int| 0 <= j < i ==> !is_kv_named(#[trigger] line.items@[j]@, key@),
            decreases line.items@.len() - i,
        {
            match &line.items[i] {
                Item::Kv { name, .. } => {
                    if str_eq(name.as_str(), key) {
                        assert(is_kv_named(record.attr_lines@[l as int].items@[i as int]@, key@));
                        return true;
                    }
                },
                _ => {},
            }
            i += 1;
        }
        l += 1;
    }
    false
}

/// The names of the merged attributes of `r`, in order.
pub open spec fn field_names(r: Record) -> Seq<Seq<char>> {
    fields_of(r).map_values(|p: (Seq<char>, Seq<char>)| p.0)
}

/// `; it carries: a, b` for the attributes `r` carries, or nothing.
pub open spec fn carried_list(r: Record) -> Seq<char> {
    if field_names(r).len() == 0 {
        Seq::empty()
    } else {
        "; it carries: "@ + join(field_names(r))
    }
}

/// Why set `i` cannot be applied to `r`, if it cannot.
pub open spec fn set_refusal(r: Record, sets: Seq<(Seq<char>, Seq<char>)>, i: int) -> Option<
    Seq<char>,
> {
    let key = sets[i].0;
    if exists|j: int| 0 <= j < i && #[trigger] sets[j].0 == key {
        Some("`"@ + key + "` is set more than once; set each attribute at most once per edit"@)
    } else if structural(key) is Some {
        Some("cannot set `"@ + key + "`: "@ + structural(key)->0)
    } else if !known_key(key) {
        Some("`"@ + key + "` is not in the vaire attribute vocabulary (check rule V6)"@)
    } else if !carries_key(r, key) {
        Some("record "@ + r.id@ + " carries no attribute `"@ + key + "`"@ + carried_list(r)
            + "; edit only overwrites attributes already present"@)
    } else {
        None
    }
}

/// The first refusal among sets `i..`.
pub open spec fn sets_refusal(r: Record, sets: Seq<(Seq<char>, Seq<char>)>, i: int) -> Option<
    Seq<char>,
>
    decreases sets.len() - i,
{
    if i < 0 || i >= sets.len() {
        None
    } else {
        match set_refusal(r, sets, i) {
            Some(m) => Some(m),
            None => sets_refusal(r, sets, i + 1),
        }
    }
}

/// `; it carries: ...` for `record`.
fn carried_list_of(record: &Record) -> (r: String)
    ensures
        r@ == carried_list(*record),
{
    let fields = record.fields();
    let ghost names = field_names(*record);
    let mut joined = String::new();
    let mut k: usize = 0;
    assert(names.take(0) =~= Seq::<Seq<char>>::empty());
    while k < fields.len()
        invariant
            k <= fields@.len(),
            pairs_view(fields@) == fields_of(*record),
            names == field_names(*record),
            names.len() == fields@.len(),
            joined@ == join(names.take(k as int)),
        decreases fields@.len() - k,
    {
        assert(names[k as int] == fields@[k as int].0@);
        proof {
            crate::quoting::lemma_join_push(names.take(k as int), names[k as int]);
            assert(names.take(k + 1) =~= names.take(k as int).push(names[k as int]));
        }
        if k > 0 {
            push_str(&mut joined, ", ");
            proof {
                reveal_strlit(", ");
            }
        }
        push_str(&mut joined, fields[k].0.as_str());
        k += 1;
    }
    assert(names.take(names.len() as int) =~= names);
    if fields.len() == 0 {
        String::new()
    } else {
        let mut r = str_to_string("; it carries: ");
        push_str(&mut r, joined.as_str());
        r
    }
}

/// Reject anything an edit cannot express as a value overwrite on existing
/// attribute lines: repeated keys, structural names, out-of-vocabulary keys,
/// and keys the record does not carry.
pub fn validate_sets(record: &Record, sets: &[Assignment]) -> (r: Result<(), Error>)
    ensures
        match sets_refusal(*record, sets_view(sets@), 0) {
            None => r is Ok,
            Some(m) => r matches Err(Error::Validation(x)) && x@ == m,
        },
{
    let ghost sv = sets_view(sets@);
    let mut i: usize = 0;
    while i < sets.len()
        invariant
            i <= sets@.len(),
            sv == sets_view(sets@),
            sv.len() == sets@.len(),
            sets_refusal(*record, sv, 0) == sets_refusal(*record, sv, i as int),
        decreases sets@.len() - i,
    {
        let key = sets[i].key.as_str();
        assert(sv[i as int].0 == key@);
        let mut j: usize = 0;
        let mut repeated = false;
        while j < i && !repeated
            invariant
                j <= i < sets@.len(),
                sv == sets_view(sets@),
                sv.len() == sets@.len(),
                sv[i as int].0 == key@,
                repeated ==> j < i && sv[j as int].0 == key@,
                !repeated ==> forall|m: int| 0 <= m < j ==> #[trigger] sv[m].0 != key@,
            decreases i - j + (if repeated {
                0int
            } else {
                1int
            }),
        {
            assert(sv[j as int].0 == sets@[j as int].key@);
            if str_eq(sets[j].key.as_str(), key) {
                repeated = true;
            } else {
                j += 1;
            }
        }
        if repeated {
            let mut m = str_to_string("`");
            push_str(&mut m, key);
            push_str(&mut m, "` is set more than once; set each attribute at most once per edit");
            return Err(Error::Validation(m));
        }
        match structural_reason(key) {
            Some(reason) => {
                let mut m = str_to_string("cannot set `");
                push_str(&mut m, key);
                push_str(&mut m, "`: ");
                push_str(&mut m, reason);
                return Err(Error::Validation(m));
            },
            None => {},
        }
        if !is_known_key(key) {
            let mut m = str_to_string("`");
            push_str(&mut m, key);
            push_str(&mut m, "` is not in the vaire attribute vocabulary (check rule V6)");
            return Err(Error::Validation(m));
        }
        if !carries(record, key) {
            let mut m = str_to_string("record ");
            push_str(&mut m, record.id.as_str());
            push_str(&mut m, " carries no attribute `");
            push_str(&mut m, key);
            push_str(&mut m, "`");
            let known = carried_list_of(record);
            push_str(&mut m, known.as_str());
            push_str(&mut m, "; edit only overwrites attributes already present");
            return Err(Error::Validation(m));
        }
        i += 1;
    }
    Ok(())
}

} // verus!

verus! {

/// The indices of the first `n` records with id `id`, in order.
pub open spec fn hits(records: Seq<Record>, id: Seq<char>, n: int) -> Seq<int>
    decreases n,
{
    if n <= 0 {
        Seq::empty()
    } else {
        hits(records, id, n - 1) + if records[n - 1].id@ == id {
            seq![n - 1]
        } else {
            Seq::empty()
        }
    }
}

/// The one record named `id` among `records`, extracted from file `file`
/// with bytes `b`, or the refusal naming the file, the id and, for a
/// duplicate, every occurrence's location.
pub open spec fn located_at(file: Seq<char>, b: Seq<u8>, records: Seq<Record>, id: Seq<char>) -> Result<
    int,
    Seq<char>,
> {
    let h = hits(records, id, records.len() as int);
    if h.len() == 0 {
        Err(file + ": requirement `"@ + id + "` not found"@)
    } else if h.len() == 1 {
        Ok(h[0])
    } else {
        Err(file + ": requirement id `"@ + id + "` appears "@ + decimal(h.len()) + " times: "@
            + join(h.map_values(|k: int| location_text(b, records[k].span.start as int))))
    }
}

/// The index of the one record named `id`, or an error naming the file,
/// the id, and for a duplicate every occurrence's location.
pub fn locate(file: &str, source: &str, records: &[Record], id: &str) -> (r: Result<usize, Error>)
    requires
        source.spec_bytes().len() < usize::MAX,
        forall|i: int|
            0 <= i < records@.len() ==> (#[trigger] records@[i]).span.start
                <= source.spec_bytes().len(),
    ensures
        match located_at(file@, source.spec_bytes(), records@, id@) {
            Ok(k) => r matches Ok(x) && x == k && k < records@.len(),
            Err(m) => r matches Err(Error::Missing(x)) && x@ == m,
        },
{
    let mut found: Vec<usize> = Vec::new();
    let mut i: usize = 0;
    while i < records.len()
        invariant
            i <= records@.len(),
            found@.map_values(|x: usize| x as int) == hits(records@, id@, i as int),
            forall|m: int| 0 <= m < found@.len() ==> #[trigger] found@[m] < i,
        decreases records@.len() - i,
    {
        let ghost before = found@;
        if str_eq(records[i].id.as_str(), id) {
            found.push(i);
        }
        assert(found@.map_values(|x: usize| x as int) =~= hits(records@, id@, i + 1));
        i += 1;
    }
    let ghost h = hits(records@, id@, records@.len() as int);
    assert(h.len() == found@.len());
    if found.len() == 0 {
        let mut m = str_to_string(file);
        push_str(&mut m, ": requirement `");
        push_str(&mut m, id);
        push_str(&mut m, "` not found");
        return Err(Error::Missing(m));
    }
    if found.len() == 1 {
        assert(h[0] == found@[0] as int);
        return Ok(found[0]);
    }
    let ghost locs = h.map_values(|k: int| location_text(source.spec_bytes(), records@[k].span.start as int));
    let mut joined = String::new();
    let mut k: usize = 0;
    assert(locs.take(0) =~= Seq::<Seq<char>>::empty());
    while k < found.len()
        invariant
            k <= found@.len(),
            h.len() == found@.len(),
            found@.map_values(|x: usize| x as int) == h,
            forall|m: int| 0 <= m < found@.len() ==> #[trigger] found@[m] < records@.len(),
            locs == h.map_values(|k: int| location_text(source.spec_bytes(), records@[k].span.start as int)),
            source.spec_bytes().len() < usize::MAX,
            forall|i: int|
                0 <= i < records@.len() ==> (#[trigger] records@[i]).span.start
                    <= source.spec_bytes().len(),
            joined@ == join(locs.take(k as int)),
        decreases found@.len() - k,
    {
        assert(h[k as int] == found@[k as int] as int);
        let rec = &records[found[k]];
        let loc = location(source, rec.span.start);
        proof {
            crate::quoting::lemma_join_push(locs.take(k as int), locs[k as int]);
            assert(locs.take(k + 1) =~= locs.take(k as int).push(locs[k as int]));
        }
        if k > 0 {
            push_str(&mut joined, ", ");
            proof {
                reveal_strlit(", ");
            }
        }
        push_str(&mut joined, loc.as_str());
        k += 1;
    }
    assert(locs.take(locs.len() as int) =~= locs);
    let mut m = str_to_string(file);
    push_str(&mut m, ": requirement id `");
    push_str(&mut m, id);
    push_str(&mut m, "` appears ");
    push_decimal(&mut m, found.len());
    push_str(&mut m, " times: ");
    push_str(&mut m, joined.as_str());
    Err(Error::Missing(m))
}

} // verus!

verus! {

/// The value the first set named `name` gives, if any.
pub open spec fn set_value(sets: Seq<(Seq<char>, Seq<char>)>, name: Seq<char>) -> Option<Seq<char>>
    decreases sets.len(),
{
    if sets.len() == 0 {
        None
    } else if sets[0].0 == name {
        Some(sets[0].1)
    } else {
        set_value(sets.drop_first(), name)
    }
}

/// Item `it` with a set value in place of its own, if a set names it.
pub open spec fn apply_item(it: ItemView, sets: Seq<(Seq<char>, Seq<char>)>) -> ItemView {
    match it {
        ItemView::Kv { name, value } => match set_value(sets, name) {
            Some(v) => ItemView::Kv { name, value: v },
            None => it,
        },
        _ => it,
    }
}

/// `new` is attribute line `old` with the sets applied to its items; its
/// place and raw text are kept.
pub open spec fn applied_line(new: AttrLine, old: AttrLine, sets: Seq<(Seq<char>, Seq<char>)>) -> bool {
    &&& new.start == old.start
    &&& new.end == old.end
    &&& new.raw@ == old.raw@
    &&& items_view(new.items@) == items_view(old.items@).map_values(
        |it: ItemView| apply_item(it, sets),
    )
}

/// `new` is record `old` with the sets applied to every attribute line;
/// everything else is kept.
pub open spec fn applied_to(new: Record, old: Record, sets: Seq<(Seq<char>, Seq<char>)>) -> bool {
    &&& new.file@ == old.file@
    &&& new.id@ == old.id@
    &&& new.span == old.span
    &&& new.delim@ == old.delim@
    &&& new.body_raw@ == old.body_raw@
    &&& new.attr_lines@.len() == old.attr_lines@.len()
    &&& forall|l: int|
        0 <= l < old.attr_lines@.len() ==> applied_line(
            #[trigger] new.attr_lines@[l],
            old.attr_lines@[l],
            sets,
        )
}

/// The value the first set named `name` gives.
fn set_value_of(sets: &[Assignment], name: &str) -> (r: Option<String>)
    ensures
        match set_value(sets_view(sets@), name@) {
            Some(v) => r matches Some(s) && s@ == v,
            None => r is None,
        },
{
    let ghost sv = sets_view(sets@);
    let mut j: usize = 0;
    assert(sv.skip(0) =~= sv);
    while j < sets.len()
        invariant
            j <= sets@.len(),
            sv == sets_view(sets@),
            sv.len() == sets@.len(),
            set_value(sv, name@) == set_value(sv.skip(j as int), name@),
        decreases sets@.len() - j,
    {
        assert(sv.skip(j as int)[0] == sv[j as int]);
        assert(sv[j as int] == (sets@[j as int].key@, sets@[j as int].value@));
        if str_eq(sets[j].key.as_str(), name) {
            return Some(sets[j].value.clone());
        }
        assert(sv.skip(j as int).drop_first() =~= sv.skip(j + 1));
        j += 1;
    }
    None
}

/// An item with the same view as `it`.
fn copy_item(it: &Item) -> (r: Item)
    ensures
        r@ == it@,
{
    match it {
        Item::Style(s) => Item::Style(s.clone()),
        Item::Id(s) => Item::Id(s.clone()),
        Item::Kv { name, value } => Item::Kv { name: name.clone(), value: value.clone() },
        Item::Raw(s) => Item::Raw(s.clone()),
    }
}

/// Attribute line `line` with the sets applied to its items.
fn applied_line_of(line: &AttrLine, sets: &[Assignment]) -> (r: AttrLine)
    ensures
        applied_line(r, *line, sets_view(sets@)),
{
    let ghost sv = sets_view(sets@);
    let ghost iv = items_view(line.items@);
    let mut items: Vec<Item> = Vec::new();
    let mut i: usize = 0;
    while i < line.items.len()
        invariant
            i <= line.items@.len(),
            sv == sets_view(sets@),
            iv == items_view(line.items@),
            iv.len() == line.items@.len(),
            items@.len() == i,
            forall|m: int| 0 <= m < i ==> (#[trigger] items@[m])@ == apply_item(iv[m], sv),
        decreases line.items@.len() - i,
    {
        assert(iv[i as int] == line.items@[i as int]@);
        let it = match &line.items[i] {
            Item::Kv { name, value } => match set_value_of(sets, name.as_str()) {
                Some(v) => Item::Kv { name: name.clone(), value: v },
                None => Item::Kv { name: name.clone(), value: value.clone() },
            },
            other => copy_item(other),
        };
        items.push(it);
        i += 1;
    }
    assert(items_view(items@) =~= iv.map_values(|it: ItemView| apply_item(it, sv)));
    AttrLine { start: line.start, end: line.end, raw: line.raw.clone(), items }
}

/// Record `record` with the sets applied to every attribute line.
fn applied_record(record: &Record, sets: &[Assignment]) -> (r: Record)
    ensures
        applied_to(r, *record, sets_view(sets@)),
{
    let mut lines: Vec<AttrLine> = Vec::new();
    let mut l: usize = 0;
    while l < record.attr_lines.len()
        invariant
            l <= record.attr_lines@.len(),
            lines@.len() == l,
            forall|m: int|
                0 <= m < l ==> applied_line(
                    #[trigger] lines@[m],
                    record.attr_lines@[m],
                    sets_view(sets@),
                ),
        decreases record.attr_lines@.len() - l,
    {
        let line = applied_line_of(&record.attr_lines[l], sets);
        lines.push(line);
        l += 1;
    }
    Record {
        file: record.file.clone(),
        id: record.id.clone(),
        span: record.span,
        attr_lines: lines,
        delim: record.delim.clone(),
        body_raw: record.body_raw.clone(),
    }
}

/// Overwrite the value of every `Kv` item named by a set; each item takes
/// the value of the first set of its name. Nothing else changes.
pub fn apply(record: &mut Record, sets: &[Assignment])
    ensures
        applied_to(*final(record), *old(record), sets_view(sets@)),
{
    let new = applied_record(record, sets);
    *record = new;
}

} // verus!

verus! {

/// What editing record `id` of the `live` records of file `file` (bytes
/// `b`) with `sets` gives: the located record, the sets checked against
/// it, and the plan for the edited record set.
pub open spec fn edit_outcome(
    r: Result<Vec<Edit>, Error>,
    file: Seq<char>,
    b: Seq<u8>,
    live: Seq<Record>,
    id: Seq<char>,
    sets: Seq<(Seq<char>, Seq<char>)>,
) -> bool {
    match located_at(file, b, live, id) {
        Err(m) => r matches Err(Error::Missing(x)) && x@ == m,
        Ok(k) => match sets_refusal(live[k], sets, 0) {
            Some(m) => r matches Err(Error::Validation(x)) && x@ == m,
            None => exists|edited: Seq<Record>|
                edited.len() == live.len() && (forall|i: int|
                    0 <= i < live.len() ==> applied_to(
                        #[trigger] edited[i],
                        live[i],
                        if i == k {
                            sets
                        } else {
                            Seq::empty()
                        },
                    )) && plan_matches(r, planned(file, edited, live)),
        },
    }
}

/// `e` is the refusal `res` carries.
pub open spec fn refused_as(res: Result<Seq<u8>, Seq<char>>, e: Error) -> bool {
    match res {
        Err(m) => e matches Error::Unrepresentable(x) && x@ == m,
        Ok(_) => false,
    }
}

/// The record set an edit plans: record `k` with the sets applied, the
/// others as they are.
fn edited_records(records: &[Record], k: usize, sets: &[Assignment]) -> (r: Vec<Record>)
    ensures
        r@.len() == records@.len(),
        forall|i: int|
            0 <= i < records@.len() ==> applied_to(
                #[trigger] r@[i],
                records@[i],
                if i == k {
                    sets_view(sets@)
                } else {
                    Seq::empty()
                },
            ),
{
    let none: Vec<Assignment> = Vec::new();
    assert(sets_view(none@) =~= Seq::<(Seq<char>, Seq<char>)>::empty());
    let mut out: Vec<Record> = Vec::new();
    let mut i: usize = 0;
    while i < records.len()
        invariant
            i <= records@.len(),
            out@.len() == i,
            sets_view(none@) == Seq::<(Seq<char>, Seq<char>)>::empty(),
            forall|m: int|
                0 <= m < i ==> applied_to(
                    #[trigger] out@[m],
                    records@[m],
                    if m == k {
                        sets_view(sets@)
                    } else {
                        Seq::empty()
                    },
                ),
        decreases records@.len() - i,
    {
        let rec = if i == k {
            applied_record(&records[i], sets)
        } else {
            applied_record(&records[i], none.as_slice())
        };
        out.push(rec);
        i += 1;
    }
    out
}

/// What editing record `id` of the `live` records of file `file` (bytes
/// `b`) gives as new text: the planned splices applied to `b`, or the
/// refusal of the plan or of the splice.
pub open spec fn edit_text_outcome(
    r: Result<String, Error>,
    file: Seq<char>,
    b: Seq<u8>,
    live: Seq<Record>,
    id: Seq<char>,
    sets: Seq<(Seq<char>, Seq<char>)>,
) -> bool {
    match r {
        Ok(s) => exists|v: Vec<Edit>|
            #[trigger] edit_outcome(Ok(v), file, b, live, id, sets) && applied(file, b, edit_views(v@))
                == Ok::<Seq<u8>, Seq<char>>(encode_utf8(s@)),
        Err(e) => edit_outcome(Err(e), file, b, live, id, sets) || exists|v: Vec<Edit>|
            #[trigger] edit_outcome(Ok(v), file, b, live, id, sets) && refused_as(
                applied(file, b, edit_views(v@)),
                e,
            ),
    }
}

/// The splices that setting `sets` on requirement `id` would apply to
/// `file`, whose text is `source` and whose records are `live`: `id` must
/// name exactly one of them, and every key must be in the vocabulary and
/// already carried by that record as a named attribute; all checks run
/// before any splice is computed, so a rejected edit plans nothing.
pub fn plan_in(file: &str, source: &str, live: &[Record], id: &str, sets: &[Assignment]) -> (r:
    Result<Vec<Edit>, Error>)
    requires
        source.spec_bytes().len() < usize::MAX,
        all_in_source(live@, file@, source.spec_bytes()),
    ensures
        edit_outcome(r, file@, source.spec_bytes(), live@, id@, sets_view(sets@)),
{
    assert forall|i: int| 0 <= i < live@.len() implies (#[trigger] live@[i]).span.start
        <= source.spec_bytes().len() by {
        assert(record_in_source(live@[i], file@, source.spec_bytes()));
    }
    let k = match locate(file, source, live, id) {
        Ok(k) => k,
        Err(e) => {
            return Err(e);
        },
    };
    match validate_sets(&live[k], sets) {
        Ok(()) => {},
        Err(e) => {
            return Err(e);
        },
    }
    let edited = edited_records(live, k, sets);
    plan_against(file, edited.as_slice(), live)
}

/// The text of `file`, whose text is `source` and whose records are `live`,
/// after setting `sets` on requirement `id`: every attribute line carrying
/// an edited key rewritten with the new value and all other bytes as they
/// were. An edit whose values already match plans no splice and gives back
/// the text unchanged; an edit `plan_in` refuses is refused the same way.
pub fn edit_in(file: &str, source: &str, live: &[Record], id: &str, sets: &[Assignment]) -> (r:
    Result<String, Error>)
    requires
        source.spec_bytes().len() < usize::MAX,
        all_in_source(live@, file@, source.spec_bytes()),
    ensures
        edit_text_outcome(r, file@, source.spec_bytes(), live@, id@, sets_view(sets@)),
{
    match plan_in(file, source, live, id, sets) {
        Ok(v) => {
            let r = apply_edits(file, source, v.as_slice());
            proof {
                let o = edit_outcome(Ok(v), file@, source.spec_bytes(), live@, id@, sets_view(sets@));
                assert(o);
            }
            r
        },
        Err(e) => Err(e),
    }
}

/// The splices that setting `sets` on requirement `id` would apply to
/// `file`, whose text is `source`, without writing anything: the records
/// `extract` finds, edited as `plan_in` says. The file must extract
/// cleanly.
pub fn plan(file: &str, source: &str, id: &str, sets: &[Assignment]) -> (r: Result<Vec<Edit>, Error>)
    requires
        source.spec_bytes().len() < usize::MAX,
    ensures
        r matches Err(Error::Parse(_)) || exists|live: Seq<Record>|
            extracted(live, file@, source.spec_bytes()) && #[trigger] edit_outcome(
                r,
                file@,
                source.spec_bytes(),
                live,
                id@,
                sets_view(sets@),
            ),
{
    let records = match crate::extract::extract(file, source) {
        Ok(rs) => rs,
        Err(e) => {
            return Err(e);
        },
    };
    let r = plan_in(file, source, records.as_slice(), id, sets);
    assert(extracted(records@, file@, source.spec_bytes()));
    r
}

/// Set `sets` on requirement `id` in `file`, whose text is `source`: the
/// new text for the records `extract` finds, edited as `edit_in` says.
pub fn edit(file: &str, source: &str, id: &str, sets: &[Assignment]) -> (r: Result<String, Error>)
    requires
        source.spec_bytes().len() < usize::MAX,
    ensures
        r matches Err(Error::Parse(_)) || exists|live: Seq<Record>|
            extracted(live, file@, source.spec_bytes()) && #[trigger] edit_text_outcome(
                r,
                file@,
                source.spec_bytes(),
                live,
                id@,
                sets_view(sets@),
            ),
{
    let records = match crate::extract::extract(file, source) {
        Ok(rs) => rs,
        Err(e) => {
            return Err(e);
        },
    };
    let r = edit_in(file, source, records.as_slice(), id, sets);
    assert(extracted(records@, file@, source.spec_bytes()));
    r
}

} // verus!

verus! {

/// Pairs with each value a set names replaced by the set's value.
pub open spec fn map_kvs(kvs: Seq<Pair>, sets: Seq<(Seq<char>, Seq<char>)>) -> Seq<Pair> {
    kvs.map_values(
        |p: Pair|
            (
                p.0,
                match set_value(sets, p.0) {
                    Some(v) => v,
                    None => p.1,
                },
            ),
    )
}

/// Some pair is named `n`.
pub open spec fn has_name(kvs: Seq<Pair>, n: Seq<char>) -> bool {
    exists|q: int| 0 <= q < kvs.len() && (#[trigger] kvs[q]).0 == n
}

/// Applying sets to items maps their named attributes.
proof fn lemma_item_kvs_apply(items: Seq<ItemView>, sets: Seq<(Seq<char>, Seq<char>)>)
    ensures
        item_kvs(items.map_values(|it: ItemView| apply_item(it, sets))) == map_kvs(
            item_kvs(items),
            sets,
        ),
    decreases items.len(),
{
    let f = |it: ItemView| apply_item(it, sets);
    if items.len() > 0 {
        lemma_item_kvs_apply(items.drop_last(), sets);
        assert(items.map_values(f).drop_last() =~= items.drop_last().map_values(f));
        assert(items.map_values(f).last() == apply_item(items.last(), sets));
        assert(item_kvs(items.map_values(f)) =~= map_kvs(item_kvs(items), sets));
    } else {
        assert(items.map_values(f) =~= Seq::<ItemView>::empty());
        assert(map_kvs(item_kvs(items), sets) =~= Seq::<Pair>::empty());
    }
}

/// Applying sets to attribute lines maps their named attributes.
proof fn lemma_line_kvs_apply(
    new: Seq<AttrLine>,
    old: Seq<AttrLine>,
    sets: Seq<(Seq<char>, Seq<char>)>,
)
    requires
        new.len() == old.len(),
        forall|l: int| 0 <= l < old.len() ==> applied_line(#[trigger] new[l], old[l], sets),
    ensures
        line_kvs(new) == map_kvs(line_kvs(old), sets),
    decreases old.len(),
{
    if old.len() > 0 {
        assert forall|l: int| 0 <= l < old.len() - 1 implies applied_line(
            #[trigger] new.drop_last()[l],
            old.drop_last()[l],
            sets,
        ) by {
            assert(new.drop_last()[l] == new[l] && old.drop_last()[l] == old[l]);
        }
        lemma_line_kvs_apply(new.drop_last(), old.drop_last(), sets);
        assert(applied_line(new.last(), old.last(), sets));
        lemma_item_kvs_apply(items_view(old.last().items@), sets);
        assert(map_kvs(line_kvs(old), sets) =~= map_kvs(line_kvs(old.drop_last()), sets)
            + map_kvs(item_kvs(items_view(old.last().items@)), sets));
    } else {
        assert(map_kvs(line_kvs(old), sets) =~= Seq::<Pair>::empty());
    }
}

/// The last value of a name after mapping: the set's value if a set names
/// it and some pair carries it, the old last value otherwise.
proof fn lemma_last_mapped(kvs: Seq<Pair>, sets: Seq<(Seq<char>, Seq<char>)>, n: Seq<char>)
    ensures
        set_value(sets, n) is Some ==> last_value(map_kvs(kvs, sets), n) == if has_name(kvs, n) {
            set_value(sets, n)
        } else {
            None
        },
        set_value(sets, n) is None ==> last_value(map_kvs(kvs, sets), n) == last_value(kvs, n),
    decreases kvs.len(),
{
    if kvs.len() > 0 {
        let d = kvs.drop_last();
        lemma_last_mapped(d, sets, n);
        assert(map_kvs(kvs, sets).drop_last() =~= map_kvs(d, sets));
        assert(map_kvs(kvs, sets).last().0 == kvs.last().0);
        if has_name(kvs, n) && kvs.last().0 != n {
            let q = choose|q: int| 0 <= q < kvs.len() && (#[trigger] kvs[q]).0 == n;
            assert(d[q] == kvs[q]);
        }
        if has_name(d, n) {
            let q = choose|q: int| 0 <= q < d.len() && (#[trigger] d[q]).0 == n;
            assert(kvs[q] == d[q]);
        }
    }
}

/// Law: after an edit, every carried attribute a set names reads back, in
/// the merged view, as the set's value; every attribute no set names keeps
/// its merged value.
pub proof fn lemma_edit_fields(new: Record, old: Record, sets: Seq<(Seq<char>, Seq<char>)>, key: Seq<char>)
    requires
        applied_to(new, old, sets),
    ensures
        carries_key(old, key) && set_value(sets, key) is Some ==> lookup(fields_of(new), key)
            == set_value(sets, key),
        set_value(sets, key) is None ==> lookup(fields_of(new), key) == lookup(fields_of(old), key),
{
    lemma_line_kvs_apply(new.attr_lines@, old.attr_lines@, sets);
    lemma_last_mapped(line_kvs(old.attr_lines@), sets, key);
    crate::record::lemma_merge_last(line_kvs(new.attr_lines@), key);
    crate::record::lemma_merge_last(line_kvs(old.attr_lines@), key);
    if carries_key(old, key) {
        let (l, i) = choose|l: int, i: int|
            0 <= l < old.attr_lines@.len() && 0 <= i < old.attr_lines@[l].items@.len()
                && is_kv_named(#[trigger] old.attr_lines@[l].items@[i]@, key);
        lemma_carried_named(old.attr_lines@, l, i, key);
    }
}

/// A carried attribute is among the named attributes of the lines.
proof fn lemma_carried_named(lines: Seq<AttrLine>, l: int, i: int, key: Seq<char>)
    requires
        0 <= l < lines.len(),
        0 <= i < lines[l].items@.len(),
        is_kv_named(lines[l].items@[i]@, key),
    ensures
        has_name(line_kvs(lines), key),
    decreases lines.len(),
{
    if l < lines.len() - 1 {
        assert(lines.drop_last()[l] == lines[l]);
        lemma_carried_named(lines.drop_last(), l, i, key);
        let q = choose|q: int| 0 <= q < line_kvs(lines.drop_last()).len() && (#[trigger] line_kvs(lines.drop_last())[q]).0 == key;
        assert(line_kvs(lines)[q] == line_kvs(lines.drop_last())[q]);
    } else {
        let iv = items_view(lines.last().items@);
        lemma_item_named(iv, i, key);
        let q = choose|q: int| 0 <= q < item_kvs(iv).len() && (#[trigger] item_kvs(iv)[q]).0 == key;
        let pre = line_kvs(lines.drop_last());
        assert(line_kvs(lines)[pre.len() + q] == item_kvs(iv)[q]);
    }
}

/// A named item is among the named attributes of the items.
proof fn lemma_item_named(items: Seq<ItemView>, i: int, key: Seq<char>)
    requires
        0 <= i < items.len(),
        is_kv_named(items[i], key),
    ensures
        has_name(item_kvs(items), key),
    decreases items.len(),
{
    if i < items.len() - 1 {
        assert(items.drop_last()[i] == items[i]);
        lemma_item_named(items.drop_last(), i, key);
        let q = choose|q: int| 0 <= q < item_kvs(items.drop_last()).len() && (#[trigger] item_kvs(items.drop_last())[q]).0 == key;
        assert(item_kvs(items)[q] == item_kvs(items.drop_last())[q]);
    } else {
        let pre = item_kvs(items.drop_last());
        assert(item_kvs(items)[pre.len() as int].0 == key);
    }
}

/// Law: an edit keeps the shape of every attribute line: as many items,
/// each of the same kind; id, style and raw items as they were; named
/// items under the same name. Place, raw text, id, span and body stay.
pub proof fn lemma_edit_keeps_structure(new: Record, old: Record, sets: Seq<(Seq<char>, Seq<char>)>)
    requires
        applied_to(new, old, sets),
    ensures
        forall|l: int|
            0 <= l < old.attr_lines@.len() ==> (#[trigger] new.attr_lines@[l]).items@.len()
                == old.attr_lines@[l].items@.len(),
        forall|l: int, i: int|
            0 <= l < old.attr_lines@.len() && 0 <= i < old.attr_lines@[l].items@.len() ==> match (
                #[trigger] old.attr_lines@[l].items@[i]@
            ) {
                ItemView::Kv { name, .. } => new.attr_lines@[l].items@[i]@ matches ItemView::Kv {
                    name: n2,
                    ..
                } && n2 == name,
                other => new.attr_lines@[l].items@[i]@ == other,
            },
{
    assert forall|l: int| 0 <= l < old.attr_lines@.len() implies (#[trigger] new.attr_lines@[
        l
    ]).items@.len() == old.attr_lines@[l].items@.len() by {
        assert(applied_line(new.attr_lines@[l], old.attr_lines@[l], sets));
        assert(items_view(new.attr_lines@[l].items@).len() == items_view(old.attr_lines@[l].items@).len());
    }
    assert forall|l: int, i: int|
        0 <= l < old.attr_lines@.len() && 0 <= i < old.attr_lines@[l].items@.len() implies match (
            #[trigger] old.attr_lines@[l].items@[i]@
        ) {
            ItemView::Kv { name, .. } => new.attr_lines@[l].items@[i]@ matches ItemView::Kv {
                name: n2,
                ..
            } && n2 == name,
            other => new.attr_lines@[l].items@[i]@ == other,
        } by {
        assert(applied_line(new.attr_lines@[l], old.attr_lines@[l], sets));
        let nv = items_view(new.attr_lines@[l].items@);
        let ov = items_view(old.attr_lines@[l].items@);
        assert(nv[i] == apply_item(ov[i], sets));
        assert(nv[i] == new.attr_lines@[l].items@[i]@);
        assert(ov[i] == old.attr_lines@[l].items@[i]@);
    }
}

} // verus!

verus! {

/// The sets already hold the values `r` carries: every named item a set
/// names has the set's value.
pub open spec fn sets_agree(r: Record, sets: Seq<(Seq<char>, Seq<char>)>) -> bool {
    forall|l: int, i: int|
        0 <= l < r.attr_lines@.len() && 0 <= i < r.attr_lines@[l].items@.len() ==> match (
        #[trigger] r.attr_lines@[l].items@[i])@ {
            ItemView::Kv { name, value } => (set_value(sets, name) matches Some(v) ==> v == value),
            _ => true,
        }
}

/// Applying sets that agree with a line leaves its items as they are.
proof fn lemma_agreeing_line(new: AttrLine, old: AttrLine, sets: Seq<(Seq<char>, Seq<char>)>)
    requires
        applied_line(new, old, sets),
        forall|i: int|
            0 <= i < old.items@.len() ==> match (#[trigger] old.items@[i])@ {
                ItemView::Kv { name, value } => (set_value(sets, name) matches Some(v) ==> v
                    == value),
                _ => true,
            },
    ensures
        items_view(new.items@) == items_view(old.items@),
{
    let ov = items_view(old.items@);
    assert forall|i: int| 0 <= i < ov.len() implies apply_item(ov[i], sets) == ov[i] by {
        assert(ov[i] == old.items@[i]@);
    }
    assert(items_view(new.items@) =~= items_view(old.items@));
}

/// Lines with equal items plan no edit.
proof fn lemma_line_edits_same(
    path: Seq<char>,
    id: Seq<char>,
    wants: Seq<AttrLine>,
    haves: Seq<AttrLine>,
    n: int,
)
    requires
        0 <= n <= wants.len(),
        n <= haves.len(),
        forall|l: int| 0 <= l < n ==> items_view((#[trigger] wants[l]).items@) == items_view(
            haves[l].items@,
        ),
    ensures
        line_edits(path, id, wants, haves, n) == Ok::<Seq<EditView>, Seq<char>>(Seq::empty()),
    decreases n,
{
    if n > 0 {
        lemma_line_edits_same(path, id, wants, haves, n - 1);
        assert(items_view(wants[n - 1].items@) == items_view(haves[n - 1].items@));
    }
}

/// Law: an edit whose values already match the record plans no splice:
/// with unique ids, applying agreeing sets to record `k` and planning the
/// result against the live records gives the empty plan.
pub proof fn lemma_noop_edit_plans_nothing(
    file: Seq<char>,
    live: Seq<Record>,
    edited: Seq<Record>,
    k: int,
    sets: Seq<(Seq<char>, Seq<char>)>,
)
    requires
        unique_ids(live),
        0 <= k < live.len(),
        edited.len() == live.len(),
        forall|i: int|
            0 <= i < live.len() ==> applied_to(
                #[trigger] edited[i],
                live[i],
                if i == k {
                    sets
                } else {
                    Seq::empty()
                },
            ),
        sets_agree(live[k], sets),
    ensures
        planned(file, edited, live) == Ok::<Seq<EditView>, Seq<char>>(Seq::empty()),
{
    lemma_noop_upto(file, live, edited, k, sets, live.len() as int);
}

/// The first `n` edited records plan nothing.
proof fn lemma_noop_upto(
    file: Seq<char>,
    live: Seq<Record>,
    edited: Seq<Record>,
    k: int,
    sets: Seq<(Seq<char>, Seq<char>)>,
    n: int,
)
    requires
        unique_ids(live),
        0 <= k < live.len(),
        edited.len() == live.len(),
        forall|i: int|
            0 <= i < live.len() ==> applied_to(
                #[trigger] edited[i],
                live[i],
                if i == k {
                    sets
                } else {
                    Seq::empty()
                },
            ),
        sets_agree(live[k], sets),
        0 <= n <= live.len(),
    ensures
        plan_upto(file, edited, live, n) == Ok::<Seq<EditView>, Seq<char>>(Seq::empty()),
    decreases n,
{
    if n > 0 {
        lemma_noop_upto(file, live, edited, k, sets, n - 1);
        let j = n - 1;
        let e = edited[j];
        let h = live[j];
        let s = if j == k {
            sets
        } else {
            Seq::empty()
        };
        assert(applied_to(e, h, s));
        let ids = ids_of(edited.take(j));
        assert forall|q: int| 0 <= q < ids.len() implies ids[q] != e.id@ by {
            assert(applied_to(edited[q], live[q], if q == k {
                sets
            } else {
                Seq::empty()
            }));
            assert(ids[q] == edited[q].id@);
        }
        assert(!ids.contains(e.id@));
        crate::emit::lemma_live_index_unique(live, j);
        assert forall|l: int| 0 <= l < e.attr_lines@.len() implies items_view(
            (#[trigger] e.attr_lines@[l]).items@,
        ) == items_view(h.attr_lines@[l].items@) by {
            assert(applied_line(e.attr_lines@[l], h.attr_lines@[l], s));
            assert forall|i: int| 0 <= i < h.attr_lines@[l].items@.len() implies match (
            #[trigger] h.attr_lines@[l].items@[i])@ {
                ItemView::Kv { name, value } => (set_value(s, name) matches Some(v) ==> v
                    == value),
                _ => true,
            } by {
                if j == k {
                    assert(sets_agree(live[k], sets));
                }
            }
            lemma_agreeing_line(e.attr_lines@[l], h.attr_lines@[l], s);
        }
        lemma_line_edits_same(file, e.id@, e.attr_lines@, h.attr_lines@, e.attr_lines@.len() as int);
        assert(record_edits(file, e, live) == Ok::<Seq<EditView>, Seq<char>>(Seq::empty()));
        assert(Seq::<EditView>::empty() + Seq::<EditView>::empty() =~= Seq::<EditView>::empty());
    }
}

} // verus!

verus! {

/// Two records that planning cannot tell apart: same id, span, delimiter,
/// body and attribute lines, line by line in raw text and items.
pub open spec fn plans_alike(r1: Record, r2: Record) -> bool {
    &&& r1.id@ == r2.id@
    &&& r1.span == r2.span
    &&& r1.delim@ == r2.delim@
    &&& r1.body_raw@ == r2.body_raw@
    &&& r1.attr_lines@.len() == r2.attr_lines@.len()
    &&& forall|l: int|
        0 <= l < r1.attr_lines@.len() ==> (#[trigger] r1.attr_lines@[l]).raw@ == r2.attr_lines@[l].raw@
            && items_view(r1.attr_lines@[l].items@) == items_view(r2.attr_lines@[l].items@)
}

/// Lines alike in raw text and items give the same line edits.
proof fn lemma_line_edits_alike(
    path: Seq<char>,
    id: Seq<char>,
    w1: Seq<AttrLine>,
    w2: Seq<AttrLine>,
    haves: Seq<AttrLine>,
    n: int,
)
    requires
        0 <= n <= w1.len(),
        w1.len() == w2.len(),
        forall|l: int|
            0 <= l < w1.len() ==> (#[trigger] w1[l]).raw@ == w2[l].raw@ && items_view(w1[l].items@)
                == items_view(w2[l].items@),
    ensures
        line_edits(path, id, w1, haves, n) == line_edits(path, id, w2, haves, n),
    decreases n,
{
    if n > 0 {
        lemma_line_edits_alike(path, id, w1, w2, haves, n - 1);
        assert(w1[n - 1].raw@ == w2[n - 1].raw@);
    }
}

/// Record sets alike record by record plan alike.
proof fn lemma_plan_upto_alike(path: Seq<char>, e1: Seq<Record>, e2: Seq<Record>, live: Seq<Record>, n: int)
    requires
        0 <= n <= e1.len(),
        e1.len() == e2.len(),
        forall|i: int| 0 <= i < e1.len() ==> plans_alike(#[trigger] e1[i], e2[i]),
    ensures
        plan_upto(path, e1, live, n) == plan_upto(path, e2, live, n),
    decreases n,
{
    if n > 0 {
        lemma_plan_upto_alike(path, e1, e2, live, n - 1);
        let r1 = e1[n - 1];
        let r2 = e2[n - 1];
        assert(plans_alike(r1, r2));
        assert(ids_of(e1.take(n - 1)) =~= ids_of(e2.take(n - 1))) by {
            assert forall|j: int| 0 <= j < n - 1 implies #[trigger] ids_of(e1.take(n - 1))[j]
                == ids_of(e2.take(n - 1))[j] by {
                assert(plans_alike(e1[j], e2[j]));
            }
        }
        let li = live_index(live, r1.id@);
        if li >= 0 {
            lemma_line_edits_alike(
                path,
                r1.id@,
                r1.attr_lines@,
                r2.attr_lines@,
                live[li].attr_lines@,
                r1.attr_lines@.len() as int,
            );
        }
        assert(record_edits(path, r1, live) == record_edits(path, r2, live));
    }
}

/// Two record sets made by applying the same sets to the same live
/// records plan alike.
proof fn lemma_applied_plans_alike(
    file: Seq<char>,
    e1: Seq<Record>,
    e2: Seq<Record>,
    live: Seq<Record>,
    k: int,
    sets: Seq<(Seq<char>, Seq<char>)>,
)
    requires
        e1.len() == live.len(),
        e2.len() == live.len(),
        forall|i: int|
            0 <= i < live.len() ==> applied_to(
                #[trigger] e1[i],
                live[i],
                if i == k {
                    sets
                } else {
                    Seq::empty()
                },
            ),
        forall|i: int|
            0 <= i < live.len() ==> applied_to(
                #[trigger] e2[i],
                live[i],
                if i == k {
                    sets
                } else {
                    Seq::empty()
                },
            ),
    ensures
        planned(file, e1, live) == planned(file, e2, live),
{
    assert forall|i: int| 0 <= i < e1.len() implies plans_alike(#[trigger] e1[i], e2[i]) by {
        let s = if i == k {
            sets
        } else {
            Seq::empty()
        };
        assert(applied_to(e1[i], live[i], s));
        assert(applied_to(e2[i], live[i], s));
        assert forall|l: int| 0 <= l < e1[i].attr_lines@.len() implies (#[trigger] e1[i].attr_lines@[l]).raw@
            == e2[i].attr_lines@[l].raw@ && items_view(e1[i].attr_lines@[l].items@) == items_view(
            e2[i].attr_lines@[l].items@,
        ) by {
            assert(applied_line(e1[i].attr_lines@[l], live[i].attr_lines@[l], s));
            assert(applied_line(e2[i].attr_lines@[l], live[i].attr_lines@[l], s));
        }
    }
    lemma_plan_upto_alike(file, e1, e2, live, e1.len() as int);
}

/// Law: editing refuses whenever planning the same edit refuses. For one
/// file, its records, an id and sets, if the plan is an error then the
/// edited text is an error too; and when the plan succeeds, the edited text
/// is those edits spliced into the file or their refusal.
pub proof fn lemma_edit_refused_with_plan(
    file: Seq<char>,
    b: Seq<u8>,
    live: Seq<Record>,
    id: Seq<char>,
    sets: Seq<(Seq<char>, Seq<char>)>,
    p: Result<Vec<Edit>, Error>,
    t: Result<String, Error>,
)
    requires
        edit_outcome(p, file, b, live, id, sets),
        edit_text_outcome(t, file, b, live, id, sets),
    ensures
        p is Err ==> t is Err,
        p matches Ok(v) ==> match applied(file, b, edit_views(v@)) {
            Ok(bs) => t matches Ok(s) && encode_utf8(s@) == bs,
            Err(m) => t matches Err(e) && (refused_as(applied(file, b, edit_views(v@)), e)),
        },
{
    if let Ok(s) = t {
        let v = choose|v: Vec<Edit>|
            #[trigger] edit_outcome(Ok(v), file, b, live, id, sets) && applied(file, b, edit_views(v@))
                == Ok::<Seq<u8>, Seq<char>>(encode_utf8(s@));
        lemma_outcome_functional(p, Ok(v), file, b, live, id, sets);
    }
    if let Err(e) = t {
        if p is Ok {
            if edit_outcome(Err(e), file, b, live, id, sets) {
                lemma_outcome_functional(p, Err(e), file, b, live, id, sets);
            } else {
                let v = choose|v: Vec<Edit>|
                    #[trigger] edit_outcome(Ok(v), file, b, live, id, sets) && refused_as(
                        applied(file, b, edit_views(v@)),
                        e,
                    );
                lemma_outcome_functional(p, Ok(v), file, b, live, id, sets);
            }
        }
    }
}

/// Two results the same edit outcome allows agree: both errors, or both
/// the same edits.
proof fn lemma_outcome_functional(
    p: Result<Vec<Edit>, Error>,
    q: Result<Vec<Edit>, Error>,
    file: Seq<char>,
    b: Seq<u8>,
    live: Seq<Record>,
    id: Seq<char>,
    sets: Seq<(Seq<char>, Seq<char>)>,
)
    requires
        edit_outcome(p, file, b, live, id, sets),
        edit_outcome(q, file, b, live, id, sets),
    ensures
        p is Err <==> q is Err,
        p matches Ok(v) ==> q matches Ok(w) && edit_views(v@) == edit_views(w@),
{
    if let Ok(k) = located_at(file, b, live, id) {
        if sets_refusal(live[k], sets, 0) is None {
            let e1 = choose|edited: Seq<Record>|
                edited.len() == live.len() && (forall|i: int|
                    0 <= i < live.len() ==> applied_to(
                        #[trigger] edited[i],
                        live[i],
                        if i == k {
                            sets
                        } else {
                            Seq::empty()
                        },
                    )) && plan_matches(p, planned(file, edited, live));
            let e2 = choose|edited: Seq<Record>|
                edited.len() == live.len() && (forall|i: int|
                    0 <= i < live.len() ==> applied_to(
                        #[trigger] edited[i],
                        live[i],
                        if i == k {
                            sets
                        } else {
                            Seq::empty()
                        },
                    )) && plan_matches(q, planned(file, edited, live));
            lemma_applied_plans_alike(file, e1, e2, live, k, sets);
        }
    }
}

} // verus!
