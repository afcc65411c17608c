//! Surgical emit: plan and splice edited attribute lines into the source
//! bytes; every byte outside an edited attribute line passes through
//! untouched.
use vstd::prelude::*;
use vstd::string::StringSliceAdditionalSpecFns;
use vstd::utf8::encode_utf8;

use crate::check::{id_among, ids_of, strings_view};
use crate::extract::{extracted, record_in_source};
use crate::quoting::{
    all_renderable, all_single_line, multiline_refusal, parse_items, render_attr_line, render_line,
};
use crate::text::{boundaries, push_decimal, push_str, str_eq, str_to_string, substr};
use crate::{items_view, AttrLine, Error, Item, ItemView, Record};

verus! {

/// One attribute-line rewrite planned against the live source.
///
/// `old`/`new` are the exact text of the region in the current file and its
/// replacement, so the plan is renderable as a diff without touching disk.
#[derive(Debug, Clone, PartialEq, Eq)]
pub struct Edit {
    pub id: String,
    pub start: usize,
    pub end: usize,
    pub old: String,
    pub new: String,
}

/// The mathematical value of an [`Edit`].
pub struct EditView {
    pub id: Seq<char>,
    pub start: int,
    pub end: int,
    pub old: Seq<char>,
    pub new: Seq<char>,
}

impl View for Edit {
    type V = EditView;

    open spec fn view(&self) -> EditView {
        EditView {
            id: self.id@,
            start: self.start as int,
            end: self.end as int,
            old: self.old@,
            new: self.new@,
        }
    }
}

/// The views of a list of edits.
pub open spec fn edit_views(s: Seq<Edit>) -> Seq<EditView> {
    s.map_values(|e: Edit| e@)
}

/// The ids an attribute line carries, in order.
pub open spec fn ids_in(items: Seq<ItemView>) -> Seq<Seq<char>>
    decreases items.len(),
{
    if items.len() == 0 {
        Seq::empty()
    } else {
        ids_in(items.drop_last()) + match items.last() {
            ItemView::Id(s) => seq![s],
            _ => Seq::empty(),
        }
    }
}

/// The index of the last live record with id `id`, or `-1`: a later record
/// of the same id shadows an earlier one.
pub open spec fn live_index(live: Seq<Record>, id: Seq<char>) -> int
    decreases live.len(),
{
    if live.len() == 0 {
        -1
    } else if live.last().id@ == id {
        live.len() - 1
    } else {
        live_index(live.drop_last(), id)
    }
}

/// What `{:?}` makes of a string: the text quoted, with `"`, `\` and
/// control characters escaped.
pub uninterp spec fn debug_form(s: Seq<char>) -> Seq<char>;

/// The start of every refusal about record `id` of `path`.
pub open spec fn record_prefix(path: Seq<char>, id: Seq<char>) -> Seq<char> {
    path + ": record "@ + id
}

/// The edits for the first `n` attribute lines of a record: `wants` from
/// the supplied record, `haves` from the live one.
pub open spec fn line_edits(
    path: Seq<char>,
    id: Seq<char>,
    wants: Seq<AttrLine>,
    haves: Seq<AttrLine>,
    n: int,
) -> Result<Seq<EditView>, Seq<char>>
    decreases n,
{
    if n <= 0 {
        Ok(Seq::empty())
    } else {
        match line_edits(path, id, wants, haves, n - 1) {
            Err(m) => Err(m),
            Ok(es) => {
                let want = wants[n - 1];
                let have = haves[n - 1];
                let wi = items_view(want.items@);
                let hi = items_view(have.items@);
                if ids_in(wi) != ids_in(hi) {
                    Err(record_prefix(path, id) + ": id attribute item changed (ids are immutable)"@)
                } else if wi == hi {
                    Ok(es)
                } else if want.raw@ != have.raw@ {
                    Err(record_prefix(path, id)
                        + ": attribute line changed since extraction (extracted "@ + debug_form(
                        want.raw@,
                    ) + ", file now "@ + debug_form(have.raw@) + "); re-extract"@)
                } else if !all_single_line(wi) {
                    Err(multiline_refusal())
                } else {
                    Ok(
                        es.push(
                            EditView {
                                id,
                                start: have.start as int,
                                end: have.end as int,
                                old: have.raw@,
                                new: render_line(wi),
                            },
                        ),
                    )
                }
            },
        }
    }
}

/// The edits for one supplied record, checked against the live records.
pub open spec fn record_edits(path: Seq<char>, rec: Record, live: Seq<Record>) -> Result<
    Seq<EditView>,
    Seq<char>,
> {
    let p = record_prefix(path, rec.id@);
    let li = live_index(live, rec.id@);
    if li < 0 {
        Err(p + " not found in file (ids are immutable)"@)
    } else {
        let have = live[li];
        if rec.span != have.span {
            Err(p
                + ": byte span changed since extraction (spans are bookkeeping, not editable); re-extract"@)
        } else if rec.delim@ != have.delim@ {
            Err(p
                + ": block delimiter changed since extraction (delimiters are not editable); re-extract"@)
        } else if rec.body_raw@ != have.body_raw@ {
            Err(p + ": body changed since extraction (bodies are not editable); re-extract"@)
        } else if rec.attr_lines@.len() != have.attr_lines@.len() {
            Err(p + ": attribute line count changed"@)
        } else {
            line_edits(
                path,
                rec.id@,
                rec.attr_lines@,
                have.attr_lines@,
                rec.attr_lines@.len() as int,
            )
        }
    }
}

/// The edits for the first `n` supplied records, in supply order.
pub open spec fn plan_upto(path: Seq<char>, records: Seq<Record>, live: Seq<Record>, n: int) -> Result<
    Seq<EditView>,
    Seq<char>,
>
    decreases n,
{
    if n <= 0 {
        Ok(Seq::empty())
    } else {
        match plan_upto(path, records, live, n - 1) {
            Err(m) => Err(m),
            Ok(es) => if ids_of(records.take(n - 1)).contains(records[n - 1].id@) {
                Err(record_prefix(path, records[n - 1].id@) + " supplied more than once"@)
            } else {
                match record_edits(path, records[n - 1], live) {
                    Err(m) => Err(m),
                    Ok(more) => Ok(es + more),
                }
            },
        }
    }
}

/// A refusal at line `j` is the refusal of every longer prefix.
proof fn lemma_line_edits_err(
    path: Seq<char>,
    id: Seq<char>,
    wants: Seq<AttrLine>,
    haves: Seq<AttrLine>,
    j: int,
    n: int,
)
    requires
        j <= n,
        line_edits(path, id, wants, haves, j) is Err,
    ensures
        line_edits(path, id, wants, haves, n) == line_edits(path, id, wants, haves, j),
    decreases n - j,
{
    if j < n {
        lemma_line_edits_err(path, id, wants, haves, j, n - 1);
    }
}

/// A refusal at record `j` is the refusal of every longer prefix.
proof fn lemma_plan_upto_err(path: Seq<char>, records: Seq<Record>, live: Seq<Record>, j: int, n: int)
    requires
        j <= n,
        plan_upto(path, records, live, j) is Err,
    ensures
        plan_upto(path, records, live, n) == plan_upto(path, records, live, j),
    decreases n - j,
{
    if j < n {
        lemma_plan_upto_err(path, records, live, j, n - 1);
    }
}

/// Where edit `x` goes in `s`: after the last edit starting at or after it,
/// looking from the end.
pub open spec fn start_pos(s: Seq<EditView>, x: EditView) -> int
    decreases s.len(),
{
    if s.len() == 0 {
        0
    } else if s.last().start >= x.start {
        s.len() as int
    } else {
        start_pos(s.drop_last(), x)
    }
}

/// `s` stably sorted by descending start.
pub open spec fn by_start_desc(s: Seq<EditView>) -> Seq<EditView>
    decreases s.len(),
{
    if s.len() == 0 {
        Seq::empty()
    } else {
        let t = by_start_desc(s.drop_last());
        t.insert(start_pos(t, s.last()), s.last())
    }
}

/// The plan for the supplied `records` against the `live` records of file
/// `path`: the rewrites of every attribute line whose items differ, by
/// descending start, or the first refusal.
pub open spec fn planned(path: Seq<char>, records: Seq<Record>, live: Seq<Record>) -> Result<
    Seq<EditView>,
    Seq<char>,
> {
    match plan_upto(path, records, live, records.len() as int) {
        Ok(es) => Ok(by_start_desc(es)),
        Err(m) => Err(m),
    }
}

/// `r` is what the plan `p` describes: the edits, or a refusal with its
/// message.
pub open spec fn plan_matches(r: Result<Vec<Edit>, Error>, p: Result<Seq<EditView>, Seq<char>>) -> bool {
    match p {
        Ok(es) => r matches Ok(v) && edit_views(v@) == es,
        Err(m) => r matches Err(Error::Unrepresentable(x)) && x@ == m,
    }
}

} // verus!

verus! {

/// `format!("{:?}", s)`: the string as `Debug` prints it, in double quotes
/// with `"`, `\` and control characters escaped. The escaping is fixed by
/// the standard library, so the result is named as a function of the text;
/// nothing more of it is stated here.
#[verifier::external_body]
fn debug_quote(s: &str) -> (r: String)
    ensures
        r@ == debug_form(s@),
{
    format!("{s:?}")
}

/// The id items of an attribute line, in order; emit never edits these.
pub fn id_items(line: &AttrLine) -> (r: Vec<String>)
    ensures
        strings_view(r@) == ids_in(items_view(line.items@)),
{
    let ghost iv = items_view(line.items@);
    let mut out: Vec<String> = Vec::new();
    let mut i: usize = 0;
    assert(iv.take(0) =~= Seq::<ItemView>::empty());
    assert(strings_view(out@) =~= ids_in(iv.take(0)));
    while i < line.items.len()
        invariant
            i <= line.items@.len(),
            iv == items_view(line.items@),
            iv.len() == line.items@.len(),
            strings_view(out@) == ids_in(iv.take(i as int)),
        decreases line.items@.len() - i,
    {
        assert(iv.take(i + 1).drop_last() =~= iv.take(i as int));
        assert(iv.take(i + 1).last() == line.items@[i as int]@);
        let ghost before = strings_view(out@);
        match &line.items[i] {
            Item::Id(s) => {
                out.push(s.clone());
                assert(strings_view(out@) =~= before.push(s@));
            },
            _ => {},
        }
        i += 1;
        assert(strings_view(out@) =~= ids_in(iv.take(i as int)));
    }
    assert(iv.take(iv.len() as int) =~= iv);
    out
}

/// Whether two lists of strings are equal.
fn strings_eq(a: &Vec<String>, b: &Vec<String>) -> (r: bool)
    ensures
        r == (strings_view(a@) == strings_view(b@)),
{
    if a.len() != b.len() {
        assert(strings_view(a@).len() != strings_view(b@).len());
        return false;
    }
    let mut i: usize = 0;
    while i < a.len()
        invariant
            i <= a@.len(),
            a@.len() == b@.len(),
            forall|m: int| 0 <= m < i ==> #[trigger] a@[m]@ == b@[m]@,
        decreases a@.len() - i,
    {
        if !str_eq(a[i].as_str(), b[i].as_str()) {
            assert(strings_view(a@)[i as int] != strings_view(b@)[i as int]);
            return false;
        }
        i += 1;
    }
    assert(strings_view(a@) =~= strings_view(b@));
    true
}

/// Whether two items are equal.
fn item_eq(a: &Item, b: &Item) -> (r: bool)
    ensures
        r == (a@ == b@),
{
    match (a, b) {
        (Item::Style(x), Item::Style(y)) => str_eq(x.as_str(), y.as_str()),
        (Item::Id(x), Item::Id(y)) => str_eq(x.as_str(), y.as_str()),
        (Item::Kv { name: n1, value: v1 }, Item::Kv { name: n2, value: v2 }) => str_eq(
            n1.as_str(),
            n2.as_str(),
        ) && str_eq(v1.as_str(), v2.as_str()),
        (Item::Raw(x), Item::Raw(y)) => str_eq(x.as_str(), y.as_str()),
        _ => false,
    }
}

/// Whether two item lists are equal.
fn items_eq(a: &Vec<Item>, b: &Vec<Item>) -> (r: bool)
    ensures
        r == (items_view(a@) == items_view(b@)),
{
    if a.len() != b.len() {
        assert(items_view(a@).len() != items_view(b@).len());
        return false;
    }
    let mut i: usize = 0;
    while i < a.len()
        invariant
            i <= a@.len(),
            a@.len() == b@.len(),
            forall|m: int| 0 <= m < i ==> #[trigger] a@[m]@ == b@[m]@,
        decreases a@.len() - i,
    {
        if !item_eq(&a[i], &b[i]) {
            assert(items_view(a@)[i as int] != items_view(b@)[i as int]);
            return false;
        }
        i += 1;
    }
    assert(items_view(a@) =~= items_view(b@));
    true
}

/// The index of the last live record with id `id`.
fn live_record(live: &[Record], id: &str) -> (r: Option<usize>)
    ensures
        match r {
            Some(i) => i == live_index(live@, id@) && i < live@.len(),
            None => live_index(live@, id@) < 0,
        },
{
    let mut k: usize = live.len();
    assert(live@.take(k as int) =~= live@);
    while k > 0
        invariant
            k <= live@.len(),
            live_index(live@, id@) == live_index(live@.take(k as int), id@),
        decreases k,
    {
        assert(live@.take(k as int).last() == live@[k - 1]);
        if str_eq(live[k - 1].id.as_str(), id) {
            return Some(k - 1);
        }
        assert(live@.take(k as int).drop_last() =~= live@.take(k - 1));
        k -= 1;
    }
    None
}

/// An edit with the same fields as `e`.
fn copy_edit(e: &Edit) -> (r: Edit)
    ensures
        r@ == e@,
{
    Edit {
        id: e.id.clone(),
        start: e.start,
        end: e.end,
        old: e.old.clone(),
        new: e.new.clone(),
    }
}

/// The refusal `path: record id<rest>`.
fn refusal(path: &str, id: &str, rest: &str) -> (e: Error)
    ensures
        e matches Error::Unrepresentable(m) && m@ == record_prefix(path@, id@) + rest@,
{
    let mut m = str_to_string(path);
    push_str(&mut m, ": record ");
    push_str(&mut m, id);
    push_str(&mut m, rest);
    Error::Unrepresentable(m)
}

} // verus!

verus! {

/// The edits for the attribute lines of supplied record `rec` against live
/// record `have`, which has as many lines.
fn line_edits_of(path: &str, rec: &Record, have: &Record) -> (r: Result<Vec<Edit>, Error>)
    requires
        rec.attr_lines@.len() == have.attr_lines@.len(),
    ensures
        plan_matches(
            r,
            line_edits(
                path@,
                rec.id@,
                rec.attr_lines@,
                have.attr_lines@,
                rec.attr_lines@.len() as int,
            ),
        ),
{
    let mut acc: Vec<Edit> = Vec::new();
    let mut j: usize = 0;
    assert(edit_views(acc@) =~= Seq::<EditView>::empty());
    while j < rec.attr_lines.len()
        invariant
            j <= rec.attr_lines@.len(),
            rec.attr_lines@.len() == have.attr_lines@.len(),
            line_edits(path@, rec.id@, rec.attr_lines@, have.attr_lines@, j as int) == Ok::<
                Seq<EditView>,
                Seq<char>,
            >(edit_views(acc@)),
        decreases rec.attr_lines@.len() - j,
    {
        let want = &rec.attr_lines[j];
        let live = &have.attr_lines[j];
        let wid = id_items(want);
        let hid = id_items(live);
        if !strings_eq(&wid, &hid) {
            proof {
                lemma_line_edits_err(path@, rec.id@, rec.attr_lines@, have.attr_lines@, j + 1, rec.attr_lines@.len() as int);
            }
            return Err(refusal(path, rec.id.as_str(), ": id attribute item changed (ids are immutable)"));
        }
        if !items_eq(&want.items, &live.items) {
            if !str_eq(want.raw.as_str(), live.raw.as_str()) {
                let mut m = str_to_string(path);
                push_str(&mut m, ": record ");
                push_str(&mut m, rec.id.as_str());
                push_str(&mut m, ": attribute line changed since extraction (extracted ");
                let a = debug_quote(want.raw.as_str());
                push_str(&mut m, a.as_str());
                push_str(&mut m, ", file now ");
                let b = debug_quote(live.raw.as_str());
                push_str(&mut m, b.as_str());
                push_str(&mut m, "); re-extract");
                proof {
                    lemma_line_edits_err(path@, rec.id@, rec.attr_lines@, have.attr_lines@, j + 1, rec.attr_lines@.len() as int);
                }
                return Err(Error::Unrepresentable(m));
            }
            match render_attr_line(want.items.as_slice()) {
                Ok(new) => {
                    let ghost before = edit_views(acc@);
                    let e = Edit {
                        id: rec.id.clone(),
                        start: live.start,
                        end: live.end,
                        old: live.raw.clone(),
                        new,
                    };
                    let ghost ev = e@;
                    acc.push(e);
                    assert(edit_views(acc@) =~= before.push(ev));
                },
                Err(e) => {
                    proof {
                        lemma_line_edits_err(path@, rec.id@, rec.attr_lines@, have.attr_lines@, j + 1, rec.attr_lines@.len() as int);
                    }
                    return Err(e);
                },
            }
        }
        j += 1;
    }
    Ok(acc)
}

/// The edits for supplied record `rec`, checked against the live records.
fn record_edits_of(path: &str, rec: &Record, live: &[Record]) -> (r: Result<Vec<Edit>, Error>)
    ensures
        plan_matches(r, record_edits(path@, *rec, live@)),
{
    match live_record(live, rec.id.as_str()) {
        None => Err(refusal(path, rec.id.as_str(), " not found in file (ids are immutable)")),
        Some(k) => {
            let have = &live[k];
            if rec.span != have.span {
                Err(refusal(
                    path,
                    rec.id.as_str(),
                    ": byte span changed since extraction (spans are bookkeeping, not editable); re-extract",
                ))
            } else if !str_eq(rec.delim.as_str(), have.delim.as_str()) {
                Err(refusal(
                    path,
                    rec.id.as_str(),
                    ": block delimiter changed since extraction (delimiters are not editable); re-extract",
                ))
            } else if !str_eq(rec.body_raw.as_str(), have.body_raw.as_str()) {
                Err(refusal(
                    path,
                    rec.id.as_str(),
                    ": body changed since extraction (bodies are not editable); re-extract",
                ))
            } else if rec.attr_lines.len() != have.attr_lines.len() {
                Err(refusal(path, rec.id.as_str(), ": attribute line count changed"))
            } else {
                line_edits_of(path, rec, have)
            }
        },
    }
}

/// `edits` stably sorted by descending start.
fn sort_edits(edits: Vec<Edit>) -> (r: Vec<Edit>)
    ensures
        edit_views(r@) == by_start_desc(edit_views(edits@)),
{
    let ghost input = edit_views(edits@);
    let mut sorted: Vec<Edit> = Vec::new();
    let mut k: usize = 0;
    assert(input.take(0) =~= Seq::<EditView>::empty());
    while k < edits.len()
        invariant
            k <= edits@.len(),
            input == edit_views(edits@),
            input.len() == edits@.len(),
            edit_views(sorted@) == by_start_desc(input.take(k as int)),
        decreases edits@.len() - k,
    {
        let e = copy_edit(&edits[k]);
        let ghost t = edit_views(sorted@);
        assert(input.take(k + 1).drop_last() =~= input.take(k as int));
        assert(input.take(k + 1).last() == e@);
        let mut j: usize = sorted.len();
        let mut more = j > 0 && sorted[j - 1].start < e.start;
        assert(t.take(j as int) =~= t);
        while more
            invariant
                j <= sorted@.len(),
                t == edit_views(sorted@),
                t.len() == sorted@.len(),
                start_pos(t, e@) == start_pos(t.take(j as int), e@),
                more == (j > 0 && t[j - 1].start < e@.start),
            decreases j,
        {
            assert(t.take(j as int).drop_last() =~= t.take(j - 1));
            assert(t.take(j as int).last() == t[j - 1]);
            j -= 1;
            more = j > 0 && sorted[j - 1].start < e.start;
            proof {
                if j > 0 {
                    assert(t[j - 1] == sorted@[j - 1]@);
                }
            }
        }
        proof {
            if j > 0 {
                assert(t.take(j as int).last() == t[j - 1]);
            } else {
                assert(t.take(0) =~= Seq::<EditView>::empty());
            }
        }
        let ghost ev = e@;
        sorted.insert(j, e);
        assert(edit_views(sorted@) =~= t.insert(j as int, ev));
        k += 1;
    }
    assert(input.take(edits@.len() as int) =~= input);
    sorted
}

/// The splices that bring `live`, the records extracted now from file
/// `path`, in line with the supplied `records`: for every attribute line
/// whose items differ, its current region and its rendering, by descending
/// start. All-or-nothing: a record supplied twice, an id missing from the
/// file, a changed span, delimiter, body or line count, a rewritten id item,
/// a line that no longer holds the text it was extracted from, or a value
/// with a line break refuses the whole plan.
pub fn plan_against(path: &str, records: &[Record], live: &[Record]) -> (r: Result<
    Vec<Edit>,
    Error,
>)
    ensures
        plan_matches(r, planned(path@, records@, live@)),
{
    let mut edits: Vec<Edit> = Vec::new();
    let mut i: usize = 0;
    assert(edit_views(edits@) =~= Seq::<EditView>::empty());
    while i < records.len()
        invariant
            i <= records@.len(),
            plan_upto(path@, records@, live@, i as int) == Ok::<Seq<EditView>, Seq<char>>(
                edit_views(edits@),
            ),
        decreases records@.len() - i,
    {
        let rec = &records[i];
        if id_among(records, i, rec.id.as_str()) {
            proof {
                lemma_plan_upto_err(path@, records@, live@, i + 1, records@.len() as int);
            }
            return Err(refusal(path, rec.id.as_str(), " supplied more than once"));
        }
        match record_edits_of(path, rec, live) {
            Ok(more) => {
                let ghost before = edit_views(edits@);
                let ghost mv = edit_views(more@);
                let mut more = more;
                edits.append(&mut more);
                assert(edit_views(edits@) =~= before + mv);
            },
            Err(e) => {
                proof {
                    lemma_plan_upto_err(path@, records@, live@, i + 1, records@.len() as int);
                }
                return Err(e);
            },
        }
        i += 1;
    }
    Ok(sort_edits(edits))
}

/// `plan`: the splices that applying the supplied `records` to file `path`,
/// whose current text is `source`, would make. The live records are
/// extracted from `source`; nothing is written. Whatever the parser saw,
/// a plan or a refusal is the one [`plan_against`] gives for some records
/// extracted from `source`.
pub fn plan(records: &[Record], path: &str, source: &str) -> (r: Result<Vec<Edit>, Error>)
    ensures
        r matches Err(Error::Parse(_)) || exists|live: Seq<Record>|
            extracted(live, path@, source.spec_bytes()) && #[trigger] plan_matches(
                r,
                planned(path@, records@, live),
            ),
{
    match crate::extract::extract(path, source) {
        Ok(current) => plan_against(path, records, current.as_slice()),
        Err(e) => Err(e),
    }
}

} // verus!

verus! {

/// The refusal for supplied record `i` whose extraction path resolved to
/// `identity`, if it does not name the target.
pub open spec fn identity_refusal(
    path: Seq<char>,
    rec: Record,
    identity: Result<String, String>,
    target: Seq<char>,
) -> Option<Seq<char>> {
    let p = record_prefix(path, rec.id@) + " was extracted from "@ + debug_form(rec.file@);
    match identity {
        Err(why) => Some(p + ", which does not resolve ("@ + why@
            + "); emit matches records to the target by canonical path, so re-extract from the file being edited"@),
        Ok(t) => if t@ == target {
            None
        } else {
            Some(p + ", not this file; re-extract from the file being edited"@)
        },
    }
}

/// The first refusal among records `i..`.
pub open spec fn same_file_from(
    path: Seq<char>,
    records: Seq<Record>,
    identities: Seq<Result<String, String>>,
    target: Seq<char>,
    i: int,
) -> Option<Seq<char>>
    decreases records.len() - i,
{
    if i < 0 || i >= records.len() {
        None
    } else {
        match identity_refusal(path, records[i], identities[i], target) {
            Some(m) => Some(m),
            None => same_file_from(path, records, identities, target, i + 1),
        }
    }
}

/// Refuse any record not extracted from the target: `identities[i]` is what
/// the path records[i] was extracted from resolves to (or why it does not
/// resolve), and `target` is what `path` resolves to.
pub fn require_same_file(
    records: &[Record],
    path: &str,
    identities: &[Result<String, String>],
    target: &str,
) -> (r: Result<(), Error>)
    requires
        identities@.len() == records@.len(),
    ensures
        match same_file_from(path@, records@, identities@, target@, 0) {
            None => r is Ok,
            Some(m) => r matches Err(Error::Unrepresentable(x)) && x@ == m,
        },
{
    let mut i: usize = 0;
    while i < records.len()
        invariant
            i <= records@.len(),
            identities@.len() == records@.len(),
            same_file_from(path@, records@, identities@, target@, 0) == same_file_from(
                path@,
                records@,
                identities@,
                target@,
                i as int,
            ),
        decreases records@.len() - i,
    {
        let rec = &records[i];
        let mut m = str_to_string(path);
        push_str(&mut m, ": record ");
        push_str(&mut m, rec.id.as_str());
        push_str(&mut m, " was extracted from ");
        let f = debug_quote(rec.file.as_str());
        push_str(&mut m, f.as_str());
        match &identities[i] {
            Err(why) => {
                push_str(&mut m, ", which does not resolve (");
                push_str(&mut m, why.as_str());
                push_str(
                    &mut m,
                    "); emit matches records to the target by canonical path, so re-extract from the file being edited",
                );
                return Err(Error::Unrepresentable(m));
            },
            Ok(t) => {
                if !str_eq(t.as_str(), target) {
                    push_str(&mut m, ", not this file; re-extract from the file being edited");
                    return Err(Error::Unrepresentable(m));
                }
            },
        }
        i += 1;
    }
    Ok(())
}

/// Edit `e` still describes `b`: its region lies on character boundaries
/// and holds the text it was planned from.
pub open spec fn fits(b: Seq<u8>, e: EditView) -> bool {
    boundaries(b, e.start, e.end) && b.subrange(e.start, e.end) == encode_utf8(e.old)
}

/// The first edit from `i` on that no longer fits `b`, as a refusal.
pub open spec fn stale_from(path: Seq<char>, b: Seq<u8>, es: Seq<EditView>, i: int) -> Option<
    Seq<char>,
>
    decreases es.len() - i,
{
    if i < 0 || i >= es.len() {
        None
    } else if !fits(b, es[i]) {
        Some(path + ": source changed since the records were extracted (record "@ + es[i].id
            + ", attribute line at byte "@ + crate::text::decimal(es[i].start as nat)
            + " no longer matches); re-extract and re-apply"@)
    } else {
        stale_from(path, b, es, i + 1)
    }
}

/// The first edit from `i` on that does not end at or before the start of
/// the edit before it, as a refusal.
pub open spec fn overlap_from(path: Seq<char>, es: Seq<EditView>, i: int) -> Option<Seq<char>>
    decreases es.len() - i,
{
    if i < 1 || i >= es.len() {
        None
    } else if es[i].end > es[i - 1].start {
        Some(path + ": planned edits overlap (record "@ + es[i].id + ", attribute line at byte "@
            + crate::text::decimal(es[i].start as nat) + "); re-extract and re-apply"@)
    } else {
        overlap_from(path, es, i + 1)
    }
}

/// `b` with each edit's region replaced by its new text; the edits come by
/// descending start, and each lies before the one ahead of it.
pub open spec fn spliced(b: Seq<u8>, es: Seq<EditView>) -> Seq<u8>
    decreases es.len(),
{
    if es.len() == 0 {
        b
    } else {
        spliced(b.subrange(0, es[0].start), es.drop_first()) + encode_utf8(es[0].new) + b.subrange(
            es[0].end,
            b.len() as int,
        )
    }
}

/// What applying `es` to the text with bytes `b` gives.
pub open spec fn applied(path: Seq<char>, b: Seq<u8>, es: Seq<EditView>) -> Result<
    Seq<u8>,
    Seq<char>,
> {
    match stale_from(path, b, es, 0) {
        Some(m) => Err(m),
        None => match overlap_from(path, es, 1) {
            Some(m) => Err(m),
            None => Ok(spliced(b, es)),
        },
    }
}

/// Whether `e` still fits `source`.
fn fits_in(source: &str, e: &Edit) -> (r: bool)
    ensures
        r == fits(source.spec_bytes(), e@),
{
    broadcast use vstd::utf8::encode_utf8_valid_utf8;

    let ghost b = source.spec_bytes();
    let len = source.as_bytes().len();
    if !(e.start <= e.end && e.end <= len) {
        return false;
    }
    if !source.is_char_boundary(e.start) || !source.is_char_boundary(e.end) {
        return false;
    }
    let region = substr(source, e.start, e.end);
    let same = str_eq(region, e.old.as_str());
    proof {
        broadcast use vstd::utf8::encode_utf8_decode_utf8;

        assert(region.spec_bytes() == encode_utf8(region@));
        if !same && b.subrange(e.start as int, e.end as int) == encode_utf8(e.old@) {
            assert(decode_utf8_of(encode_utf8(region@)) == decode_utf8_of(encode_utf8(e.old@)));
        }
    }
    same
}

/// `decode_utf8`.
pub open spec fn decode_utf8_of(b: Seq<u8>) -> Seq<char> {
    vstd::utf8::decode_utf8(b)
}

/// Cutting `b` after the end of the first edit's region changes nothing
/// before that end.
proof fn lemma_spliced_cut(b: Seq<u8>, es: Seq<EditView>, c: int)
    requires
        es.len() > 0,
        0 <= es[0].start <= es[0].end <= c <= b.len(),
    ensures
        spliced(b.subrange(0, c), es) == spliced(b.subrange(0, es[0].end), es) + b.subrange(
            es[0].end,
            c,
        ),
{
    assert(b.subrange(0, c).subrange(0, es[0].start) =~= b.subrange(0, es[0].start));
    assert(b.subrange(0, es[0].end).subrange(0, es[0].start) =~= b.subrange(0, es[0].start));
    assert(b.subrange(0, c).subrange(es[0].end, c) =~= b.subrange(es[0].end, c));
    assert(b.subrange(0, es[0].end).subrange(es[0].end, es[0].end) =~= Seq::<u8>::empty());
    let head = spliced(b.subrange(0, es[0].start), es.drop_first()) + encode_utf8(es[0].new);
    assert(head + Seq::<u8>::empty() =~= head);
}

/// The refusal for the first edit that no longer fits `source`.
fn stale_check(path: &str, source: &str, edits: &[Edit]) -> (r: Option<Error>)
    ensures
        match stale_from(path@, source.spec_bytes(), edit_views(edits@), 0) {
            None => r is None,
            Some(m) => r matches Some(Error::Unrepresentable(x)) && x@ == m,
        },
{
    let ghost b = source.spec_bytes();
    let ghost es = edit_views(edits@);
    let n = edits.len();
    let mut i: usize = 0;
    while i < n
        invariant
            i <= n == edits@.len() == es.len(),
            es == edit_views(edits@),
            b == source.spec_bytes(),
            stale_from(path@, b, es, 0) == stale_from(path@, b, es, i as int),
        decreases n - i,
    {
        let e = &edits[i];
        assert(es[i as int] == e@);
        if !fits_in(source, e) {
            let mut m = str_to_string(path);
            push_str(&mut m, ": source changed since the records were extracted (record ");
            push_str(&mut m, e.id.as_str());
            push_str(&mut m, ", attribute line at byte ");
            push_decimal(&mut m, e.start);
            push_str(&mut m, " no longer matches); re-extract and re-apply");
            return Some(Error::Unrepresentable(m));
        }
        i += 1;
    }
    None
}

/// The refusal for the first edit that overlaps the one before it.
fn overlap_check(path: &str, edits: &[Edit]) -> (r: Option<Error>)
    ensures
        match overlap_from(path@, edit_views(edits@), 1) {
            None => r is None,
            Some(m) => r matches Some(Error::Unrepresentable(x)) && x@ == m,
        },
{
    let ghost es = edit_views(edits@);
    let n = edits.len();
    let mut i: usize = 1;
    while i < n
        invariant
            1 <= i,
            n == edits@.len() == es.len(),
            es == edit_views(edits@),
            overlap_from(path@, es, 1) == overlap_from(path@, es, i as int),
        decreases n - i,
    {
        let e = &edits[i];
        assert(es[i as int] == e@ && es[i - 1] == edits@[i - 1]@);
        if e.end > edits[i - 1].start {
            let mut m = str_to_string(path);
            push_str(&mut m, ": planned edits overlap (record ");
            push_str(&mut m, e.id.as_str());
            push_str(&mut m, ", attribute line at byte ");
            push_decimal(&mut m, e.start);
            push_str(&mut m, "); re-extract and re-apply");
            return Some(Error::Unrepresentable(m));
        }
        i += 1;
    }
    None
}

/// No edit from `i` on is stale: every one fits.
proof fn lemma_stale_none(path: Seq<char>, b: Seq<u8>, es: Seq<EditView>, i: int)
    requires
        0 <= i,
        stale_from(path, b, es, i) is None,
    ensures
        forall|m: int| i <= m < es.len() ==> fits(b, #[trigger] es[m]),
    decreases es.len() - i,
{
    if i < es.len() {
        lemma_stale_none(path, b, es, i + 1);
    }
}

/// No edit from `i` on overlaps the one before it.
proof fn lemma_overlap_none(path: Seq<char>, es: Seq<EditView>, i: int)
    requires
        1 <= i,
        overlap_from(path, es, i) is None,
    ensures
        forall|m: int| i <= m < es.len() ==> #[trigger] es[m].end <= es[m - 1].start,
    decreases es.len() - i,
{
    if i < es.len() {
        lemma_overlap_none(path, es, i + 1);
    }
}

/// One step of the splice: the part up to the end of edit `j` is the part
/// up to the end of the edit below it, the gap, and edit `j`'s new text.
proof fn lemma_splice_step(b: Seq<u8>, es: Seq<EditView>, j: int, cur: int)
    requires
        0 <= j < es.len(),
        0 <= cur <= es[j].start <= es[j].end <= b.len(),
        j + 1 < es.len() ==> cur == es[j + 1].end && 0 <= es[j + 1].start <= es[j + 1].end,
        j + 1 == es.len() ==> cur == 0,
    ensures
        spliced(b.subrange(0, es[j].end), es.skip(j)) == spliced(b.subrange(0, cur), es.skip(j + 1))
            + b.subrange(cur, es[j].start) + encode_utf8(es[j].new),
{
    let tail = es.skip(j);
    assert(tail[0] == es[j]);
    assert(tail.drop_first() =~= es.skip(j + 1));
    let bj = b.subrange(0, es[j].end);
    assert(bj.subrange(0, es[j].start) =~= b.subrange(0, es[j].start));
    assert(bj.subrange(es[j].end, bj.len() as int) =~= Seq::<u8>::empty());
    let lower = spliced(b.subrange(0, es[j].start), es.skip(j + 1));
    if j + 1 < es.len() {
        assert(es.skip(j + 1)[0] == es[j + 1]);
        lemma_spliced_cut(b, es.skip(j + 1), es[j].start);
        assert(lower == spliced(b.subrange(0, cur), es.skip(j + 1)) + b.subrange(cur, es[j].start));
    } else {
        assert(es.skip(j + 1) =~= Seq::<EditView>::empty());
        assert(b.subrange(0, es[j].start) =~= b.subrange(0, 0) + b.subrange(0, es[j].start));
    }
    assert(spliced(bj, tail) == lower + encode_utf8(es[j].new) + Seq::<u8>::empty());
    assert(lower + encode_utf8(es[j].new) + Seq::<u8>::empty() =~= lower + encode_utf8(es[j].new));
}

/// `source` with every edit's region replaced by its new text.
fn splice(source: &str, edits: &[Edit]) -> (r: String)
    requires
        forall|m: int| 0 <= m < edits@.len() ==> fits(source.spec_bytes(), #[trigger] edits@[m]@),
        forall|m: int| 1 <= m < edits@.len() ==> #[trigger] edits@[m].end <= edits@[m - 1].start,
    ensures
        encode_utf8(r@) == spliced(source.spec_bytes(), edit_views(edits@)),
{
    broadcast use vstd::utf8::encode_utf8_valid_utf8;

    let ghost b = source.spec_bytes();
    let ghost es = edit_views(edits@);
    let n = edits.len();
    proof {
        vstd::utf8::is_char_boundary_start_end_of_seq(b);
    }
    let mut out = String::new();
    let mut cur: usize = 0;
    let mut k: usize = n;
    proof {
        assert(es.skip(n as int) =~= Seq::<EditView>::empty());
        assert(b.subrange(0, 0) =~= Seq::<u8>::empty());
        assert(encode_utf8(out@) =~= Seq::<u8>::empty());
    }
    while k > 0
        invariant
            k <= n == edits@.len() == es.len(),
            es == edit_views(edits@),
            b == source.spec_bytes(),
            forall|m: int| 0 <= m < edits@.len() ==> fits(b, #[trigger] edits@[m]@),
            forall|m: int| 1 <= m < edits@.len() ==> #[trigger] edits@[m].end <= edits@[m - 1].start,
            cur <= b.len(),
            k < n ==> cur == edits@[k as int].end,
            k == n ==> cur == 0,
            boundaries(b, cur as int, cur as int),
            encode_utf8(out@) == spliced(b.subrange(0, cur as int), es.skip(k as int)),
        decreases k,
    {
        let j = k - 1;
        let e = &edits[j];
        assert(es[j as int] == e@);
        assert(fits(b, edits@[j as int]@));
        proof {
            if k < n {
                assert(edits@[k as int].end <= edits@[(k as int) - 1].start);
                assert(fits(b, edits@[k as int]@));
            }
        }
        let gap = substr(source, cur, e.start);
        let ghost before = out@;
        push_str(&mut out, gap);
        push_str(&mut out, e.new.as_str());
        proof {
            crate::text::lemma_encode_concat(before, gap@);
            crate::text::lemma_encode_concat(before + gap@, e.new@);
            assert(out@ == before + gap@ + e.new@);
            assert(gap.spec_bytes() == encode_utf8(gap@));
            lemma_splice_step(b, es, j as int, cur as int);
            assert(encode_utf8(out@) =~= spliced(b.subrange(0, e.end as int), es.skip(j as int)));
        }
        cur = e.end;
        k = j;
    }
    let rest = substr(source, cur, source.as_bytes().len());
    let ghost before = out@;
    push_str(&mut out, rest);
    proof {
        crate::text::lemma_encode_concat(before, rest@);
        assert(rest.spec_bytes() == encode_utf8(rest@));
        assert(b.subrange(0, b.len() as int) =~= b);
        assert(es.skip(0) =~= es);
        if n > 0 {
            lemma_spliced_cut(b, es, b.len() as int);
        } else {
            assert(b.subrange(0, 0) + b.subrange(0, b.len() as int) =~= b);
        }
    }
    out
}

/// Apply planned `edits` to `source`, the current text of file `path`:
/// every edit must still find the text it was planned from, and the edits
/// must come by descending start without overlapping, as [`plan`] orders
/// them; then each region is replaced by its new text and every other byte
/// is kept.
pub fn apply_edits(path: &str, source: &str, edits: &[Edit]) -> (r: Result<String, Error>)
    ensures
        match applied(path@, source.spec_bytes(), edit_views(edits@)) {
            Ok(bs) => r matches Ok(s) && encode_utf8(s@) == bs,
            Err(m) => r matches Err(Error::Unrepresentable(x)) && x@ == m,
        },
{
    let ghost b = source.spec_bytes();
    let ghost es = edit_views(edits@);
    match stale_check(path, source, edits) {
        Some(e) => {
            return Err(e);
        },
        None => {},
    }
    match overlap_check(path, edits) {
        Some(e) => {
            return Err(e);
        },
        None => {},
    }
    proof {
        lemma_stale_none(path@, b, es, 0);
        lemma_overlap_none(path@, es, 1);
        assert forall|m: int| 0 <= m < edits@.len() implies fits(b, #[trigger] edits@[m]@) by {
            assert(es[m] == edits@[m]@);
        }
        assert forall|m: int| 1 <= m < edits@.len() implies #[trigger] edits@[m].end <= edits@[m
            - 1].start by {
            assert(es[m] == edits@[m]@ && es[m - 1] == edits@[m - 1]@);
        }
    }
    Ok(splice(source, edits))
}

} // verus!

verus! {

/// An empty plan leaves the text as it is.
pub proof fn lemma_empty_plan_keeps_text(path: Seq<char>, b: Seq<u8>)
    ensures
        applied(path, b, Seq::empty()) == Ok::<Seq<u8>, Seq<char>>(b),
{
}

/// Splicing keeps every byte before the lowest edited region and every
/// byte after the highest one.
pub proof fn lemma_splice_keeps_outside(b: Seq<u8>, es: Seq<EditView>)
    requires
        vstd::utf8::valid_utf8(b),
        es.len() > 0,
        forall|m: int| 0 <= m < es.len() ==> fits(b, #[trigger] es[m]),
        forall|m: int| 1 <= m < es.len() ==> #[trigger] es[m].end <= es[m - 1].start,
    ensures
        spliced(b, es).len() >= es.last().start + (b.len() - es[0].end),
        spliced(b, es).subrange(0, es.last().start) == b.subrange(0, es.last().start),
        spliced(b, es).subrange(
            spliced(b, es).len() - (b.len() - es[0].end),
            spliced(b, es).len() as int,
        ) == b.subrange(es[0].end, b.len() as int),
    decreases es.len(),
{
    let e = es[0];
    let lowb = b.subrange(0, e.start);
    let rest = es.drop_first();
    let tail = b.subrange(e.end, b.len() as int);
    let low = spliced(lowb, rest);
    assert(spliced(b, es) == low + encode_utf8(e.new) + tail);
    if rest.len() == 0 {
        assert(low == lowb);
        assert(es.last() == e);
        assert((low + encode_utf8(e.new) + tail).subrange(0, e.start) =~= lowb);
    } else {
        assert forall|m: int| 0 <= m < rest.len() implies fits(lowb, #[trigger] rest[m]) by {
            assert(rest[m] == es[m + 1]);
            assert(fits(b, es[m + 1]));
            lemma_fits_below(b, es, m + 1);
        }
        assert forall|m: int| 1 <= m < rest.len() implies #[trigger] rest[m].end <= rest[m - 1].start by {
            assert(rest[m] == es[m + 1] && rest[m - 1] == es[m]);
        }
        lemma_fits_below(b, es, 1);
        proof_char_boundary_prefix(b, e.start, 0);
        lemma_splice_keeps_outside(lowb, rest);
        assert(rest.last() == es.last());
        assert(rest[0] == es[1]);
        lemma_fits_below(b, es, 1);
        assert(lowb.subrange(0, es.last().start) =~= b.subrange(0, es.last().start));
        assert((low + encode_utf8(e.new) + tail).subrange(0, es.last().start) =~= low.subrange(
            0,
            es.last().start,
        ));
    }
    let whole = low + encode_utf8(e.new) + tail;
    assert(whole.subrange(whole.len() - tail.len(), whole.len() as int) =~= tail);
}

/// Edit `k` lies below the start of the first edit.
proof fn lemma_fits_below(b: Seq<u8>, es: Seq<EditView>, k: int)
    requires
        vstd::utf8::valid_utf8(b),
        1 <= k < es.len(),
        forall|m: int| 0 <= m < es.len() ==> fits(b, #[trigger] es[m]),
        forall|m: int| 1 <= m < es.len() ==> #[trigger] es[m].end <= es[m - 1].start,
    ensures
        es[k].end <= es[0].start,
        fits(b.subrange(0, es[0].start), es[k]),
        es.last().start <= es[0].start,
    decreases k,
{
    if k > 1 {
        lemma_fits_below(b, es, k - 1);
    }
    assert(fits(b, es[k]) && fits(b, es[k - 1]) && fits(b, es[0]));
    assert(es[k].end <= es[k - 1].start);
    let lowb = b.subrange(0, es[0].start);
    assert(lowb.subrange(es[k].start, es[k].end) =~= b.subrange(es[k].start, es[k].end));
    proof_char_boundary_prefix(b, es[0].start, es[k].start);
    proof_char_boundary_prefix(b, es[0].start, es[k].end);
    if es.len() > 1 {
        assert(es.last() == es[es.len() - 1]);
        lemma_last_below(b, es, es.len() - 1);
    }
}

/// The last edit starts no later than the first.
proof fn lemma_last_below(b: Seq<u8>, es: Seq<EditView>, k: int)
    requires
        0 <= k < es.len(),
        forall|m: int| 0 <= m < es.len() ==> fits(b, #[trigger] es[m]),
        forall|m: int| 1 <= m < es.len() ==> #[trigger] es[m].end <= es[m - 1].start,
    ensures
        es[k].start <= es[0].start,
    decreases k,
{
    if k > 0 {
        lemma_last_below(b, es, k - 1);
        assert(fits(b, es[k]));
    }
}

/// A character boundary of `b` below `c` is one of `b[..c]` too, when `c`
/// is a boundary.
proof fn proof_char_boundary_prefix(b: Seq<u8>, c: int, x: int)
    requires
        vstd::utf8::valid_utf8(b),
        0 <= x <= c <= b.len(),
        vstd::utf8::is_char_boundary(b, c),
        vstd::utf8::is_char_boundary(b, x),
    ensures
        vstd::utf8::valid_utf8(b.subrange(0, c)),
        vstd::utf8::is_char_boundary(b.subrange(0, c), x),
{
    vstd::utf8::valid_utf8_split(b, c);
    let p = b.subrange(0, c);
    if x == 0 {
    } else if x < c {
        assert(p[x] == b[x]);
        vstd::utf8::is_char_boundary_iff_not_is_continuation_byte(b, x);
        vstd::utf8::is_char_boundary_iff_not_is_continuation_byte(p, x);
    } else {
        vstd::utf8::is_char_boundary_start_end_of_seq(p);
    }
}

} // verus!

verus! {

/// No two records share an id.
pub open spec fn unique_ids(records: Seq<Record>) -> bool {
    forall|i: int, j: int|
        0 <= i < records.len() && 0 <= j < records.len() && i != j ==> #[trigger] records[i].id@
            != #[trigger] records[j].id@
}

/// With unique ids, a record's id finds that record.
pub(crate) proof fn lemma_live_index_unique(live: Seq<Record>, k: int)
    requires
        unique_ids(live),
        0 <= k < live.len(),
    ensures
        live_index(live, live[k].id@) == k,
    decreases live.len(),
{
    if k < live.len() - 1 {
        let d = live.drop_last();
        assert(live.last().id@ != live[k].id@);
        assert forall|i: int, j: int|
            0 <= i < d.len() && 0 <= j < d.len() && i != j implies #[trigger] d[i].id@
            != #[trigger] d[j].id@ by {
            assert(d[i] == live[i] && d[j] == live[j]);
        }
        assert(d[k] == live[k]);
        lemma_live_index_unique(d, k);
    }
}

/// Lines that match item for item plan no edit.
proof fn lemma_same_lines(path: Seq<char>, id: Seq<char>, lines: Seq<AttrLine>, n: int)
    requires
        0 <= n <= lines.len(),
    ensures
        line_edits(path, id, lines, lines, n) == Ok::<Seq<EditView>, Seq<char>>(Seq::empty()),
    decreases n,
{
    if n > 0 {
        lemma_same_lines(path, id, lines, n - 1);
    }
}

/// Planning the live records against themselves changes nothing: fresh
/// records with unique ids plan no edit.
pub proof fn lemma_plan_of_live_is_empty(path: Seq<char>, live: Seq<Record>)
    requires
        unique_ids(live),
    ensures
        planned(path, live, live) == Ok::<Seq<EditView>, Seq<char>>(Seq::empty()),
{
    lemma_plan_live_upto(path, live, live.len() as int);
    assert(by_start_desc(Seq::<EditView>::empty()) == Seq::<EditView>::empty());
}

/// The first `n` live records, planned against all of them, plan nothing.
proof fn lemma_plan_live_upto(path: Seq<char>, live: Seq<Record>, n: int)
    requires
        unique_ids(live),
        0 <= n <= live.len(),
    ensures
        plan_upto(path, live, live, n) == Ok::<Seq<EditView>, Seq<char>>(Seq::empty()),
    decreases n,
{
    if n > 0 {
        lemma_plan_live_upto(path, live, n - 1);
        let r = live[n - 1];
        let ids = ids_of(live.take(n - 1));
        assert forall|q: int| 0 <= q < ids.len() implies ids[q] != r.id@ by {
            assert(ids[q] == live[q].id@);
        }
        assert(!ids.contains(r.id@));
        lemma_live_index_unique(live, n - 1);
        lemma_same_lines(path, r.id@, r.attr_lines@, r.attr_lines@.len() as int);
        assert(record_edits(path, r, live) == Ok::<Seq<EditView>, Seq<char>>(Seq::empty()));
        assert(Seq::<EditView>::empty() + Seq::<EditView>::empty() =~= Seq::<EditView>::empty());
    }
}

} // verus!

verus! {

/// `start_pos` lands after every edit starting at or after `x` and before
/// every edit starting before it, in a sequence by descending start.
proof fn lemma_start_pos(t: Seq<EditView>, x: EditView)
    ensures
        0 <= start_pos(t, x) <= t.len(),
        start_pos(t, x) > 0 ==> t[start_pos(t, x) - 1].start >= x.start,
        forall|m: int| start_pos(t, x) <= m < t.len() ==> (#[trigger] t[m]).start < x.start,
    decreases t.len(),
{
    if t.len() > 0 && t.last().start < x.start {
        lemma_start_pos(t.drop_last(), x);
        assert forall|m: int| start_pos(t, x) <= m < t.len() implies (#[trigger] t[m]).start
            < x.start by {
            if m < t.len() - 1 {
                assert(t[m] == t.drop_last()[m]);
            }
        }
    }
}

/// Law: the plan's edits come by descending start and are exactly the
/// edits found, no more and no fewer.
pub proof fn lemma_by_start_desc(s: Seq<EditView>)
    ensures
        forall|i: int, j: int|
            0 <= i < j < by_start_desc(s).len() ==> (#[trigger] by_start_desc(s)[i]).start
                >= (#[trigger] by_start_desc(s)[j]).start,
        by_start_desc(s).to_multiset() == s.to_multiset(),
    decreases s.len(),
{
    broadcast use vstd::seq_lib::to_multiset_build, vstd::seq_lib::to_multiset_insert;

    if s.len() > 0 {
        let t = by_start_desc(s.drop_last());
        let x = s.last();
        lemma_by_start_desc(s.drop_last());
        lemma_start_pos(t, x);
        let p = start_pos(t, x);
        let u = t.insert(p, x);
        assert forall|i: int, j: int| 0 <= i < j < u.len() implies (#[trigger] u[i]).start >= (
        #[trigger] u[j]).start by {
            if j < p {
                assert(u[i] == t[i] && u[j] == t[j]);
            } else if j == p {
                assert(u[i] == t[i]);
                assert(t[i].start >= t[p - 1].start);
            } else if i < p {
                assert(u[i] == t[i] && u[j] == t[j - 1]);
            } else if i == p {
                assert(u[j] == t[j - 1]);
            } else {
                assert(u[i] == t[i - 1] && u[j] == t[j - 1]);
            }
        }
        assert(s.drop_last().push(x) =~= s);
        assert(u.to_multiset() == t.to_multiset().insert(x));
        assert(s.drop_last().push(x).to_multiset() == s.drop_last().to_multiset().insert(x));
    } else {
        assert(s =~= Seq::<EditView>::empty());
    }
}

} // verus!

verus! {

/// Edit `e` writes a line that parses back to the items of some attribute
/// line of a supplied record of the same id.
pub open spec fn reads_back(records: Seq<Record>, e: EditView) -> bool {
    exists|r: int, l: int|
        0 <= r < records.len() && 0 <= l < records[r].attr_lines@.len() && e.id == records[r].id@
            && parse_items(e.new) == items_view((#[trigger] records[r].attr_lines@[l]).items@)
}

/// Every item of every supplied attribute line reads back as rendered.
pub open spec fn lines_renderable(records: Seq<Record>) -> bool {
    forall|r: int, l: int|
        0 <= r < records.len() && 0 <= l < records[r].attr_lines@.len() ==> all_renderable(
            items_view((#[trigger] records[r].attr_lines@[l]).items@),
        )
}

/// The edits of record `r`'s first `n` lines read back.
proof fn lemma_line_edits_read_back(
    path: Seq<char>,
    records: Seq<Record>,
    r: int,
    haves: Seq<AttrLine>,
    n: int,
)
    requires
        0 <= r < records.len(),
        lines_renderable(records),
        0 <= n <= records[r].attr_lines@.len(),
        n <= haves.len(),
    ensures
        line_edits(path, records[r].id@, records[r].attr_lines@, haves, n) matches Ok(es) ==> forall|
            k: int,
        |
            0 <= k < es.len() ==> reads_back(records, #[trigger] es[k]),
    decreases n,
{
    let id = records[r].id@;
    let wants = records[r].attr_lines@;
    if n > 0 {
        lemma_line_edits_read_back(path, records, r, haves, n - 1);
        if line_edits(path, id, wants, haves, n) is Ok {
            let es = line_edits(path, id, wants, haves, n)->Ok_0;
            let prev = line_edits(path, id, wants, haves, n - 1)->Ok_0;
            let wi = items_view(wants[n - 1].items@);
            assert forall|k: int| 0 <= k < es.len() implies reads_back(records, #[trigger] es[k]) by {
                if k < prev.len() {
                    assert(es[k] == prev[k]);
                } else {
                    assert(all_renderable(items_view(records[r].attr_lines@[n - 1].items@)));
                    crate::quoting::lemma_render_parse(wi);
                    assert(parse_items(es[k].new) == items_view(
                        records[r].attr_lines@[n - 1].items@,
                    ));
                }
            }
        }
    }
}

/// The edits for the first `n` supplied records read back.
proof fn lemma_plan_upto_read_back(path: Seq<char>, records: Seq<Record>, live: Seq<Record>, n: int)
    requires
        lines_renderable(records),
        0 <= n <= records.len(),
    ensures
        plan_upto(path, records, live, n) matches Ok(es) ==> forall|k: int|
            0 <= k < es.len() ==> reads_back(records, #[trigger] es[k]),
    decreases n,
{
    if n > 0 {
        lemma_plan_upto_read_back(path, records, live, n - 1);
        if plan_upto(path, records, live, n) is Ok {
            let es = plan_upto(path, records, live, n)->Ok_0;
            let prev = plan_upto(path, records, live, n - 1)->Ok_0;
            let rec = records[n - 1];
            let more = record_edits(path, rec, live)->Ok_0;
            let li = live_index(live, rec.id@);
            lemma_line_edits_read_back(
                path,
                records,
                n - 1,
                live[li].attr_lines@,
                rec.attr_lines@.len() as int,
            );
            assert(es == prev + more);
            assert forall|k: int| 0 <= k < es.len() implies reads_back(records, #[trigger] es[k]) by {
                if k < prev.len() {
                    assert(es[k] == prev[k]);
                } else {
                    assert(es[k] == more[k - prev.len()]);
                }
            }
        }
    }
}

/// Law: what emit writes reads back. When every supplied item has a
/// faithful rendering, every planned edit writes an attribute line that
/// parses back to exactly the items of a supplied line of its record.
pub proof fn lemma_plan_reads_back(path: Seq<char>, records: Seq<Record>, live: Seq<Record>)
    requires
        lines_renderable(records),
    ensures
        planned(path, records, live) matches Ok(es) ==> forall|k: int|
            0 <= k < es.len() ==> reads_back(records, #[trigger] es[k]),
{
    broadcast use vstd::seq_lib::to_multiset_contains;

    lemma_plan_upto_read_back(path, records, live, records.len() as int);
    if planned(path, records, live) is Ok {
        let raw = plan_upto(path, records, live, records.len() as int)->Ok_0;
        let es = by_start_desc(raw);
        lemma_by_start_desc(raw);
        assert forall|k: int| 0 <= k < es.len() implies reads_back(records, #[trigger] es[k]) by {
            assert(es.contains(es[k]));
            assert(es.to_multiset().count(es[k]) > 0);
            assert(raw.to_multiset().count(es[k]) > 0);
            assert(raw.contains(es[k]));
            let q = choose|q: int| 0 <= q < raw.len() && raw[q] == es[k];
            assert(reads_back(records, raw[q]));
        }
    }
}

} // verus!

verus! {

/// Edit `e` rewrites an attribute line of some live record as it stands:
/// its region and its old text are those of the line.
pub open spec fn from_live(live: Seq<Record>, e: EditView) -> bool {
    exists|r: int, l: int|
        0 <= r < live.len() && 0 <= l < live[r].attr_lines@.len() && e.start == (
        #[trigger] live[r].attr_lines@[l]).start && e.end == live[r].attr_lines@[l].end && e.old
            == live[r].attr_lines@[l].raw@
}

/// The line edits against live record `li` rewrite its lines as they stand.
proof fn lemma_line_edits_from_live(
    path: Seq<char>,
    id: Seq<char>,
    wants: Seq<AttrLine>,
    live: Seq<Record>,
    li: int,
    n: int,
)
    requires
        0 <= li < live.len(),
        0 <= n <= wants.len(),
        n <= live[li].attr_lines@.len(),
    ensures
        line_edits(path, id, wants, live[li].attr_lines@, n) matches Ok(es) ==> forall|k: int|
            0 <= k < es.len() ==> from_live(live, #[trigger] es[k]),
    decreases n,
{
    let haves = live[li].attr_lines@;
    if n > 0 {
        lemma_line_edits_from_live(path, id, wants, live, li, n - 1);
        if line_edits(path, id, wants, haves, n) is Ok {
            let es = line_edits(path, id, wants, haves, n)->Ok_0;
            let prev = line_edits(path, id, wants, haves, n - 1)->Ok_0;
            assert forall|k: int| 0 <= k < es.len() implies from_live(live, #[trigger] es[k]) by {
                if k < prev.len() {
                    assert(es[k] == prev[k]);
                } else {
                    assert(live[li].attr_lines@[n - 1] == haves[n - 1]);
                }
            }
        }
    }
}

/// The edits for the first `n` supplied records rewrite live lines as they
/// stand.
proof fn lemma_plan_upto_from_live(path: Seq<char>, records: Seq<Record>, live: Seq<Record>, n: int)
    requires
        0 <= n <= records.len(),
    ensures
        plan_upto(path, records, live, n) matches Ok(es) ==> forall|k: int|
            0 <= k < es.len() ==> from_live(live, #[trigger] es[k]),
    decreases n,
{
    if n > 0 {
        lemma_plan_upto_from_live(path, records, live, n - 1);
        if plan_upto(path, records, live, n) is Ok {
            let es = plan_upto(path, records, live, n)->Ok_0;
            let prev = plan_upto(path, records, live, n - 1)->Ok_0;
            let rec = records[n - 1];
            let more = record_edits(path, rec, live)->Ok_0;
            let li = live_index(live, rec.id@);
            lemma_live_index_bounds(live, rec.id@);
            if li >= 0 {
                lemma_line_edits_from_live(
                    path,
                    rec.id@,
                    rec.attr_lines@,
                    live,
                    li,
                    rec.attr_lines@.len() as int,
                );
            }
            assert(es == prev + more);
            assert forall|k: int| 0 <= k < es.len() implies from_live(live, #[trigger] es[k]) by {
                if k < prev.len() {
                    assert(es[k] == prev[k]);
                } else {
                    assert(es[k] == more[k - prev.len()]);
                }
            }
        }
    }
}

/// `live_index` is an index of `live` or `-1`.
proof fn lemma_live_index_bounds(live: Seq<Record>, id: Seq<char>)
    ensures
        -1 <= live_index(live, id) < live.len(),
    decreases live.len(),
{
    if live.len() > 0 {
        lemma_live_index_bounds(live.drop_last(), id);
    }
}

/// Edits that all fit leave nothing stale.
proof fn lemma_all_fit(path: Seq<char>, b: Seq<u8>, es: Seq<EditView>, i: int)
    requires
        0 <= i,
        forall|k: int| 0 <= k < es.len() ==> fits(b, #[trigger] es[k]),
    ensures
        stale_from(path, b, es, i) is None,
    decreases es.len() - i,
{
    if i < es.len() {
        lemma_all_fit(path, b, es, i + 1);
    }
}

/// Law: a plan made against the records extracted from a text finds every
/// region it rewrites unchanged in that same text, so applying it there
/// never refuses on stale bytes.
pub proof fn lemma_fresh_plan_fits(
    path: Seq<char>,
    records: Seq<Record>,
    live: Seq<Record>,
    file: Seq<char>,
    b: Seq<u8>,
)
    requires
        forall|i: int| 0 <= i < live.len() ==> record_in_source(#[trigger] live[i], file, b),
    ensures
        planned(path, records, live) matches Ok(es) ==> stale_from(path, b, es, 0) is None,
{
    broadcast use vstd::seq_lib::to_multiset_contains;

    lemma_plan_upto_from_live(path, records, live, records.len() as int);
    if planned(path, records, live) is Ok {
        let raw = plan_upto(path, records, live, records.len() as int)->Ok_0;
        let es = by_start_desc(raw);
        lemma_by_start_desc(raw);
        assert forall|k: int| 0 <= k < es.len() implies fits(b, #[trigger] es[k]) by {
            assert(es.contains(es[k]));
            assert(es.to_multiset().count(es[k]) > 0);
            assert(raw.to_multiset().count(es[k]) > 0);
            assert(raw.contains(es[k]));
            let q = choose|q: int| 0 <= q < raw.len() && raw[q] == es[k];
            assert(from_live(live, raw[q]));
            let (r, l) = choose|r: int, l: int|
                0 <= r < live.len() && 0 <= l < live[r].attr_lines@.len() && raw[q].start == (
                #[trigger] live[r].attr_lines@[l]).start && raw[q].end == live[r].attr_lines@[l].end
                    && raw[q].old == live[r].attr_lines@[l].raw@;
            assert(record_in_source(live[r], file, b));
        }
        lemma_all_fit(path, b, es, 0);
    }
}

} // verus!

verus! {

/// What emitting `records` gives when the live records are `live` and the
/// file holds `current` right before writing: the refusal of the plan, no
/// text for an empty plan, or the plan applied to `current`.
pub open spec fn emit_outcome(
    r: Result<Option<String>, Error>,
    path: Seq<char>,
    records: Seq<Record>,
    live: Seq<Record>,
    current: Seq<u8>,
) -> bool {
    match planned(path, records, live) {
        Err(m) => r matches Err(Error::Unrepresentable(x)) && x@ == m,
        Ok(es) => if es.len() == 0 {
            r matches Ok(None)
        } else {
            match applied(path, current, es) {
                Ok(bs) => r matches Ok(Some(s)) && encode_utf8(s@) == bs,
                Err(m) => r matches Err(Error::Unrepresentable(x)) && x@ == m,
            }
        },
    }
}

/// `emit`: apply the supplied `records` to file `path`. The plan is made
/// against `source`, the text the file held when planning; the splices are
/// applied to `current`, the text it holds right before writing, and every
/// planned region must still hold the bytes it was planned from. `None` is
/// an empty plan: nothing is to be written. Otherwise the new text.
pub fn emit(records: &[Record], path: &str, source: &str, current: &str) -> (r: Result<
    Option<String>,
    Error,
>)
    ensures
        r matches Err(Error::Parse(_)) || exists|live: Seq<Record>|
            extracted(live, path@, source.spec_bytes()) && #[trigger] emit_outcome(
                r,
                path@,
                records@,
                live,
                current.spec_bytes(),
            ),
{
    let edits = plan(records, path, source);
    let ghost planned_r = edits;
    let r = match edits {
        Ok(v) => {
            if v.len() == 0 {
                Ok(None)
            } else {
                match apply_edits(path, current, v.as_slice()) {
                    Ok(s) => Ok(Some(s)),
                    Err(e) => Err(e),
                }
            }
        },
        Err(e) => Err(e),
    };
    proof {
        if !(planned_r matches Err(Error::Parse(_))) {
            let live = choose|live: Seq<Record>|
                extracted(live, path@, source.spec_bytes()) && #[trigger] plan_matches(
                    planned_r,
                    planned(path@, records@, live),
                );
            assert(emit_outcome(r, path@, records@, live, current.spec_bytes()));
        }
    }
    r
}

} // verus!

verus! {

/// A planned region that no longer holds its bytes makes the staleness
/// scan from any earlier edit report.
proof fn lemma_stale_found(path: Seq<char>, b: Seq<u8>, es: Seq<EditView>, j: int, i: int)
    requires
        0 <= j <= i < es.len(),
        !fits(b, es[i]),
    ensures
        stale_from(path, b, es, j) is Some,
    decreases i - j,
{
    if j < i && fits(b, es[j]) {
        lemma_stale_found(path, b, es, j + 1, i);
    }
}

/// Law: emit refuses whenever the plan does, and whenever some planned
/// region of the text it is about to write no longer holds the bytes the
/// edit was planned from; such a refusal asks to re-extract.
pub proof fn lemma_emit_refuses_stale(
    r: Result<Option<String>, Error>,
    path: Seq<char>,
    records: Seq<Record>,
    live: Seq<Record>,
    current: Seq<u8>,
    i: int,
)
    requires
        emit_outcome(r, path, records, live, current),
    ensures
        planned(path, records, live) is Err ==> r matches Err(Error::Unrepresentable(_)),
        planned(path, records, live) matches Ok(es) ==> (0 <= i < es.len() && !fits(current, es[i])
            ==> (r matches Err(Error::Unrepresentable(m)) && m@ == stale_from(path, current, es, 0)->Some_0)),
{
    if let Ok(es) = planned(path, records, live) {
        if 0 <= i < es.len() && !fits(current, es[i]) {
            lemma_stale_found(path, current, es, 0, i);
        }
    }
}

} // verus!
