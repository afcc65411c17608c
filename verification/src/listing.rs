//! Listing requirements: which records a listing selects, and how a
//! statement is shortened for the table.
use vstd::prelude::*;

use crate::check::{lists, lists_target, split_on, strings_view, trace_key, traces_to, traces_to_id};
use crate::quoting::{find, find_char};
use crate::record::{fields_of, lookup, Pair};
use crate::text::{chars_of, push_char, push_str, str_eq, str_to_string, string_of_range, trim, trim_end};
use crate::Record;

verus! {

/// Modalities a listing can select, matched exactly.
#[derive(Debug, Clone, Copy, PartialEq, Eq, Structural)]
pub enum Modality {
    Shall,
    Should,
    May,
}

/// The attribute value a modality selects.
pub open spec fn modality_text(m: Modality) -> Seq<char> {
    match m {
        Modality::Shall => "shall"@,
        Modality::Should => "should"@,
        Modality::May => "may"@,
    }
}

impl Modality {
    /// The attribute value this filter matches.
    pub fn as_str(self) -> (r: &'static str)
        ensures
            r@ == modality_text(self),
    {
        match self {
            Modality::Shall => "shall",
            Modality::Should => "should",
            Modality::May => "may",
        }
    }
}

/// What parsing `raw` as a `--attr KEY=VALUE` argument gives: the text
/// before the first `=`, when there is some, and the text after it.
pub open spec fn attr_parsed(raw: Seq<char>) -> Option<(Seq<char>, Seq<char>)> {
    let p = find(raw, '=');
    if p <= 0 {
        None
    } else {
        Some((raw.subrange(0, p), raw.subrange(p + 1, raw.len() as int)))
    }
}

/// Parse one `--attr KEY=VALUE` argument; the first `=` splits and the key
/// must not be empty.
pub fn parse_attr(raw: &str) -> (r: Result<(String, String), String>)
    ensures
        match attr_parsed(raw@) {
            Some(kv) => r matches Ok(p) && p.0@ == kv.0 && p.1@ == kv.1,
            None => r matches Err(m) && m@ == "expected KEY=VALUE"@,
        },
{
    let v = chars_of(raw);
    assert(v@.subrange(0, v@.len() as int) =~= v@);
    match find_char(v.as_slice(), 0, v.len(), '=') {
        Some(p) => {
            if p == 0 {
                Err(crate::text::str_to_string("expected KEY=VALUE"))
            } else {
                Ok((string_of_range(v.as_slice(), 0, p), string_of_range(v.as_slice(), p + 1, v.len())))
            }
        },
        None => Err(crate::text::str_to_string("expected KEY=VALUE")),
    }
}

/// Width, in characters, at which a statement is shortened.
pub open spec fn statement_width() -> nat {
    60
}

/// A statement as the table shows it: the first sixty characters, without
/// trailing whitespace and followed by `…`, when it is longer.
pub open spec fn truncated(text: Seq<char>) -> Seq<char> {
    if text.len() > statement_width() {
        trim_end(text.take(statement_width() as int)).push('…')
    } else {
        text
    }
}

/// Shorten a statement for the table.
pub fn truncate(text: &str) -> (r: String)
    ensures
        r@ == truncated(text@),
{
    let v = chars_of(text);
    if v.len() <= 60 {
        return crate::text::str_to_string(text);
    }
    let mut b: usize = 60;
    while b > 0 && crate::text::is_whitespace(v[b - 1])
        invariant
            b <= 60 < v@.len(),
            trim_end(v@.take(60)) == trim_end(v@.take(b as int)),
        decreases b,
    {
        assert(v@.take(b as int).drop_last() =~= v@.take(b - 1));
        b -= 1;
    }
    proof {
        if b > 0 {
            assert(v@.take(b as int).last() == v@[b - 1]);
        } else {
            assert(v@.take(0) =~= Seq::<char>::empty());
        }
        assert(trim_end(v@.take(b as int)) == v@.take(b as int));
        assert(v@.subrange(0, b as int) =~= v@.take(b as int));
    }
    let mut r = string_of_range(v.as_slice(), 0, b);
    push_char(&mut r, '…');
    r
}

/// Record selection for a listing; every filter that is set must match.
pub struct ListFilter {
    /// Ids starting with this prefix.
    pub id: Option<String>,
    /// Merged attributes carrying exactly these values.
    pub attrs: Vec<(String, String)>,
    /// Exactly this modality.
    pub modality: Option<Modality>,
    /// Exactly this status.
    pub status: Option<String>,
    /// Exactly this verification value.
    pub verification: Option<String>,
    /// Ids every one of which the merged trace keys reference.
    pub traces: Vec<String>,
}

/// The merged attribute `name` of `r` is exactly `value`.
pub open spec fn has_value(r: Record, name: Seq<char>, value: Seq<char>) -> bool {
    lookup(fields_of(r), name) == Some(value)
}

/// `r` passes every filter that is set: a prefix match on the id, exact
/// matches on attributes, modality, status and verification, and trace
/// keys that reference every listed id.
pub open spec fn selected(r: Record, f: ListFilter) -> bool {
    &&& (f.id matches Some(p) ==> p@.len() <= r.id@.len() && r.id@.take(p@.len() as int) == p@)
    &&& (forall|k: int| 0 <= k < f.attrs@.len() ==> has_value(r, (#[trigger] f.attrs@[k]).0@, f.attrs@[k].1@))
    &&& (f.modality matches Some(m) ==> has_value(r, "modality"@, modality_text(m)))
    &&& (f.status matches Some(s) ==> has_value(r, "status"@, s@))
    &&& (f.verification matches Some(v) ==> has_value(r, "verification"@, v@))
    &&& (forall|k: int| 0 <= k < f.traces@.len() ==> traces_to(r, (#[trigger] f.traces@[k])@))
}

/// Whether the merged attribute `name` of `r` is exactly `value`.
fn field_is(r: &Record, name: &str, value: &str) -> (b: bool)
    ensures
        b == has_value(*r, name@, value@),
{
    match r.field(name) {
        Some(v) => str_eq(v.as_str(), value),
        None => false,
    }
}

/// Whether `s` starts with `p`.
fn starts_with(s: &str, p: &str) -> (b: bool)
    ensures
        b == (p@.len() <= s@.len() && s@.take(p@.len() as int) == p@),
{
    let sv = chars_of(s);
    let pv = chars_of(p);
    if pv.len() > sv.len() {
        return false;
    }
    let mut i: usize = 0;
    while i < pv.len()
        invariant
            i <= pv@.len() <= sv@.len(),
            sv@ == s@,
            pv@ == p@,
            forall|m: int| 0 <= m < i ==> #[trigger] sv@[m] == pv@[m],
        decreases pv@.len() - i,
    {
        if sv[i] != pv[i] {
            assert(s@.take(p@.len() as int)[i as int] != p@[i as int]);
            return false;
        }
        i += 1;
    }
    assert(s@.take(p@.len() as int) =~= p@);
    true
}

/// Whether a listing with `filter` shows `record`.
pub fn selects(record: &Record, filter: &ListFilter) -> (b: bool)
    ensures
        b == selected(*record, *filter),
{
    match &filter.id {
        Some(p) => {
            if !starts_with(record.id.as_str(), p.as_str()) {
                return false;
            }
        },
        None => {},
    }
    let mut k: usize = 0;
    while k < filter.attrs.len()
        invariant
            k <= filter.attrs@.len(),
            forall|m: int| 0 <= m < k ==> has_value(*record, (#[trigger] filter.attrs@[m]).0@, filter.attrs@[m].1@),
        decreases filter.attrs@.len() - k,
    {
        if !field_is(record, filter.attrs[k].0.as_str(), filter.attrs[k].1.as_str()) {
            return false;
        }
        k += 1;
    }
    match filter.modality {
        Some(m) => {
            if !field_is(record, "modality", m.as_str()) {
                return false;
            }
        },
        None => {},
    }
    match &filter.status {
        Some(s) => {
            if !field_is(record, "status", s.as_str()) {
                return false;
            }
        },
        None => {},
    }
    match &filter.verification {
        Some(v) => {
            if !field_is(record, "verification", v.as_str()) {
                return false;
            }
        },
        None => {},
    }
    let mut t: usize = 0;
    while t < filter.traces.len()
        invariant
            t <= filter.traces@.len(),
            forall|m: int| 0 <= m < t ==> traces_to(*record, (#[trigger] filter.traces@[m])@),
        decreases filter.traces@.len() - t,
    {
        let idc = chars_of(filter.traces[t].as_str());
        if !traces_to_id(record, &idc) {
            return false;
        }
        t += 1;
    }
    true
}

} // verus!

verus! {

/// A table cell with tabs and line breaks flattened to spaces.
pub open spec fn cell_text(s: Seq<char>) -> Seq<char> {
    s.map_values(|c: char| if c == '\t' || c == '\n' || c == '\r' { ' ' } else { c })
}

/// A TSV cell: tabs, line feeds and carriage returns become spaces, so a
/// row stays one line of tab-separated cells.
pub fn tsv_cell(s: &str) -> (r: String)
    ensures
        r@ == cell_text(s@),
{
    let v = chars_of(s);
    let mut out = String::new();
    let mut i: usize = 0;
    while i < v.len()
        invariant
            i <= v@.len(),
            v@ == s@,
            out@ == cell_text(v@.take(i as int)),
        decreases v@.len() - i,
    {
        let c = v[i];
        if c == '\t' || c == '\n' || c == '\r' {
            push_char(&mut out, ' ');
        } else {
            push_char(&mut out, c);
        }
        assert(v@.take(i + 1) =~= v@.take(i as int).push(c));
        assert(cell_text(v@.take(i + 1)) =~= cell_text(v@.take(i as int)).push(
            if c == '\t' || c == '\n' || c == '\r' {
                ' '
            } else {
                c
            },
        ));
        i += 1;
    }
    assert(v@.take(v@.len() as int) =~= v@);
    out
}

/// The paths of `paths` in order, each once: later repeats are dropped.
pub open spec fn distinct(paths: Seq<Seq<char>>) -> Seq<Seq<char>>
    decreases paths.len(),
{
    if paths.len() == 0 {
        Seq::empty()
    } else {
        let d = distinct(paths.drop_last());
        if d.contains(paths.last()) {
            d
        } else {
            d.push(paths.last())
        }
    }
}

/// The file arguments with repeats dropped, so a file named twice is read
/// once, at its first place.
pub fn distinct_paths(paths: &[String]) -> (r: Vec<String>)
    ensures
        strings_view(r@) == distinct(strings_view(paths@)),
{
    let ghost pv = strings_view(paths@);
    let mut out: Vec<String> = Vec::new();
    let mut i: usize = 0;
    assert(pv.take(0) =~= Seq::<Seq<char>>::empty());
    while i < paths.len()
        invariant
            i <= paths@.len(),
            pv == strings_view(paths@),
            pv.len() == paths@.len(),
            strings_view(out@) == distinct(pv.take(i as int)),
        decreases paths@.len() - i,
    {
        let ghost before = strings_view(out@);
        let mut j: usize = 0;
        let mut seen = false;
        while j < out.len() && !seen
            invariant
                j <= out@.len(),
                i < paths@.len(),
                before == strings_view(out@),
                before.len() == out@.len(),
                seen ==> j < out@.len() && before[j as int] == paths@[i as int]@,
                !seen ==> forall|m: int| 0 <= m < j ==> #[trigger] before[m] != paths@[i as int]@,
            decreases out@.len() - j + (if seen {
                0int
            } else {
                1int
            }),
        {
            if str_eq(out[j].as_str(), paths[i].as_str()) {
                seen = true;
            } else {
                j += 1;
            }
        }
        assert(pv.take(i + 1).drop_last() =~= pv.take(i as int));
        assert(pv.take(i + 1).last() == paths@[i as int]@);
        if !seen {
            out.push(paths[i].clone());
            assert(strings_view(out@) =~= before.push(paths@[i as int]@));
        } else {
            assert(before.contains(paths@[i as int]@));
        }
        i += 1;
    }
    assert(pv.take(paths@.len() as int) =~= pv);
    out
}

} // verus!

verus! {

/// Whether `p` is among `paths`.
pub fn has_path(paths: &[String], p: &str) -> (b: bool)
    ensures
        b == strings_view(paths@).contains(p@),
{
    let ghost pv = strings_view(paths@);
    let mut j: usize = 0;
    while j < paths.len()
        invariant
            j <= paths@.len(),
            pv == strings_view(paths@),
            pv.len() == paths@.len(),
            forall|m: int| 0 <= m < j ==> #[trigger] pv[m] != p@,
        decreases paths@.len() - j,
    {
        if str_eq(paths[j].as_str(), p) {
            assert(pv[j as int] == p@);
            return true;
        }
        j += 1;
    }
    false
}

/// The first of the `wanted` paths that is not among `files`.
pub open spec fn first_unknown(files: Seq<Seq<char>>, wanted: Seq<Seq<char>>) -> Option<Seq<char>>
    decreases wanted.len(),
{
    if wanted.len() == 0 {
        None
    } else if !files.contains(wanted[0]) {
        Some(wanted[0])
    } else {
        first_unknown(files, wanted.drop_first())
    }
}

/// The paths of `ps` joined by `, `.
pub open spec fn joined(ps: Seq<Seq<char>>) -> Seq<char>
    decreases ps.len(),
{
    if ps.len() == 0 {
        Seq::empty()
    } else if ps.len() == 1 {
        ps[0]
    } else {
        joined(ps.drop_last()) + ", "@ + ps.last()
    }
}

/// Why a `--file` selection is refused: it names a path that is not among
/// the files given, which the message lists.
pub open spec fn file_selection_refusal(files: Seq<Seq<char>>, wanted: Seq<Seq<char>>) -> Option<Seq<char>> {
    match first_unknown(files, wanted) {
        Some(p) => Some("--file "@ + p + " is not among the files given: "@ + joined(files)),
        None => None,
    }
}

/// The files given, joined by `, `.
fn join_paths(files: &[String]) -> (r: String)
    ensures
        r@ == joined(strings_view(files@)),
{
    let ghost fv = strings_view(files@);
    let mut out = String::new();
    let mut i: usize = 0;
    assert(fv.take(0) =~= Seq::<Seq<char>>::empty());
    while i < files.len()
        invariant
            i <= files@.len(),
            fv == strings_view(files@),
            fv.len() == files@.len(),
            out@ == joined(fv.take(i as int)),
        decreases files@.len() - i,
    {
        let ghost t = fv.take(i + 1);
        assert(t.drop_last() =~= fv.take(i as int));
        assert(t.last() == files@[i as int]@);
        if i > 0 {
            push_str(&mut out, ", ");
        } else {
            assert(out@ =~= Seq::<char>::empty());
        }
        push_str(&mut out, files[i].as_str());
        proof {
            if i == 0 {
                assert(joined(t) == t[0]);
                assert(out@ =~= files@[0]@);
            }
        }
        i += 1;
    }
    assert(fv.take(files@.len() as int) =~= fv);
    out
}

/// Checks a `--file` selection against the files given: every selected path
/// must be one of them, matched as written.
pub fn check_file_selection(files: &[String], wanted: &[String]) -> (r: Result<(), String>)
    ensures
        match file_selection_refusal(strings_view(files@), strings_view(wanted@)) {
            Some(m) => r matches Err(e) && e@ == m,
            None => r is Ok,
        },
{
    let ghost fv = strings_view(files@);
    let ghost wv = strings_view(wanted@);
    let mut k: usize = 0;
    assert(wv.skip(0) =~= wv);
    while k < wanted.len()
        invariant
            k <= wanted@.len(),
            fv == strings_view(files@),
            wv == strings_view(wanted@),
            wv.len() == wanted@.len(),
            first_unknown(fv, wv) == first_unknown(fv, wv.skip(k as int)),
        decreases wanted@.len() - k,
    {
        assert(wv.skip(k as int)[0] == wanted@[k as int]@);
        if !has_path(files, wanted[k].as_str()) {
            let mut m = str_to_string("--file ");
            push_str(&mut m, wanted[k].as_str());
            push_str(&mut m, " is not among the files given: ");
            let all = join_paths(files);
            push_str(&mut m, all.as_str());
            return Err(m);
        }
        assert(wv.skip(k as int).drop_first() =~= wv.skip(k + 1));
        k += 1;
    }
    assert(wv.skip(k as int) =~= Seq::<Seq<char>>::empty());
    Ok(())
}

/// Whether a listing restricted to the `wanted` paths shows `file`; with no
/// path selected, every file is shown.
pub fn shows_file(wanted: &[String], file: &str) -> (b: bool)
    ensures
        b == (wanted@.len() == 0 || strings_view(wanted@).contains(file@)),
{
    wanted.len() == 0 || has_path(wanted, file)
}

} // verus!

verus! {

/// Target `q` of the merged attribute `key`, trimmed, is `id`.
pub open spec fn target_is(fs: Seq<Pair>, key: Seq<char>, q: int, id: Seq<char>) -> bool {
    match lookup(fs, key) {
        Some(v) => 0 <= q < split_on(v, ',').len() && trim(split_on(v, ',')[q]) == id,
        None => false,
    }
}

/// One of the `refines`, `derives-from` and `satisfies` values among `fs`
/// lists `id` among its comma-separated, trimmed targets.
pub open spec fn traced_by(fs: Seq<Pair>, id: Seq<char>) -> bool {
    exists|key: Seq<char>, q: int|
        (key == "refines"@ || key == "derives-from"@ || key == "satisfies"@) && #[trigger] target_is(
            fs,
            key,
            q,
            id,
        )
}

/// A record traces to `id` exactly when one of its trace values lists it.
proof fn lemma_traces_to_listed(r: Record, id: Seq<char>)
    ensures
        traces_to(r, id) == traced_by(fields_of(r), id),
{
    let fs = fields_of(r);
    if traces_to(r, id) {
        let kk: int = if lists(lookup(fs, trace_key(0)), id) {
            0
        } else if lists(lookup(fs, trace_key(1)), id) {
            1
        } else {
            2
        };
        let key = trace_key(kk);
        assert(lists(lookup(fs, key), id));
        let v = lookup(fs, key)->Some_0;
        let q = choose|q: int| 0 <= q < split_on(v, ',').len() && #[trigger] trim(split_on(v, ',')[q]) == id;
        assert(target_is(fs, key, q, id));
    }
    if traced_by(fs, id) {
        let (key, q) = choose|key: Seq<char>, q: int|
            (key == "refines"@ || key == "derives-from"@ || key == "satisfies"@) && #[trigger] target_is(
                fs,
                key,
                q,
                id,
            );
        let v = lookup(fs, key)->Some_0;
        assert(trim(split_on(v, ',')[q]) == id);
        assert(lists_target(v, id));
        assert(lists(lookup(fs, key), id));
    }
}

/// Law: a listing selects a record exactly when every filter that is set
/// holds of it: its id starts with the `--id` prefix; its merged attributes
/// carry each `--attr` pair, the `--modality` word, the `--status` value and
/// the `--verification` value exactly; and for each `--traces` id, one of
/// its `refines`, `derives-from` or `satisfies` values lists that id among
/// its comma-separated, trimmed targets. A record without an attribute a
/// filter asks for is never selected.
pub proof fn lemma_selection_is_every_filter(r: Record, f: ListFilter)
    ensures
        selected(r, f) <==> {
            let fs = fields_of(r);
            &&& (f.id matches Some(p) ==> p@.len() <= r.id@.len() && r.id@.take(p@.len() as int)
                == p@)
            &&& (forall|k: int|
                0 <= k < f.attrs@.len() ==> lookup(fs, (#[trigger] f.attrs@[k]).0@) == Some(
                    f.attrs@[k].1@,
                ))
            &&& (f.modality matches Some(m) ==> lookup(fs, "modality"@) == Some(
                match m {
                    Modality::Shall => "shall"@,
                    Modality::Should => "should"@,
                    Modality::May => "may"@,
                },
            ))
            &&& (f.status matches Some(s) ==> lookup(fs, "status"@) == Some(s@))
            &&& (f.verification matches Some(v) ==> lookup(fs, "verification"@) == Some(v@))
            &&& (forall|k: int| 0 <= k < f.traces@.len() ==> traced_by(fs, (#[trigger] f.traces@[k])@))
        },
{
    assert forall|k: int| 0 <= k < f.traces@.len() implies traces_to(r, (#[trigger] f.traces@[k])@)
        == traced_by(fields_of(r), f.traces@[k]@) by {
        lemma_traces_to_listed(r, f.traces@[k]@);
    }
}

} // verus!
