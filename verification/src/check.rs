//! Validation rules V1–V6 over a set of extracted records.
use vstd::prelude::*;
use vstd::string::StringSliceAdditionalSpecFns;
use vstd::utf8::encode_utf8;

use crate::record::{fields_of, lookup, opt_view, statement_of};
use crate::text::{
    chars_of, decimal, push_decimal, push_str, str_eq, str_lines, str_to_string, trim, trim_start,
    vecs_view,
};
use crate::extract::{extracted, record_in_source, refused_text};
use crate::lines::{line_number, line_number_spec};
use crate::{items_view, AttrLine, Error, Item, ItemView, Record};

verus! {

/// The validation rules, in report order.
#[derive(Debug, Clone, Copy, PartialEq, Eq, Structural)]
pub enum ValidationRule {
    /// V1 — id uniqueness across the file set.
    DuplicateId,
    /// V2 — trace targets resolve to an id in the file set.
    UnresolvedTrace,
    /// V3 — leaf requirements carry a verification method.
    MissingVerification,
    /// V4 — prose modality agrees with the modality attribute.
    ModalityDisagreement,
    /// V5 — one modality keyword per normative statement.
    CompoundStatement,
    /// V6 — named attributes are in the vocabulary.
    UnknownAttribute,
}

/// The number in a rule's code: `V1` is rule 1.
pub open spec fn rank(rule: ValidationRule) -> int {
    match rule {
        ValidationRule::DuplicateId => 1,
        ValidationRule::UnresolvedTrace => 2,
        ValidationRule::MissingVerification => 3,
        ValidationRule::ModalityDisagreement => 4,
        ValidationRule::CompoundStatement => 5,
        ValidationRule::UnknownAttribute => 6,
    }
}

/// The code of a rule, `V1` through `V6`.
pub open spec fn code_of(rule: ValidationRule) -> Seq<char> {
    seq!['V', match rule {
        ValidationRule::DuplicateId => '1',
        ValidationRule::UnresolvedTrace => '2',
        ValidationRule::MissingVerification => '3',
        ValidationRule::ModalityDisagreement => '4',
        ValidationRule::CompoundStatement => '5',
        ValidationRule::UnknownAttribute => '6',
    }]
}

impl ValidationRule {
    /// The rule's code as reports print it.
    pub fn code(self) -> (r: &'static str)
        ensures
            r@ == code_of(self),
    {
        let r = match self {
            ValidationRule::DuplicateId => "V1",
            ValidationRule::UnresolvedTrace => "V2",
            ValidationRule::MissingVerification => "V3",
            ValidationRule::ModalityDisagreement => "V4",
            ValidationRule::CompoundStatement => "V5",
            ValidationRule::UnknownAttribute => "V6",
        };
        proof {
            reveal_strlit("V1");
            reveal_strlit("V2");
            reveal_strlit("V3");
            reveal_strlit("V4");
            reveal_strlit("V5");
            reveal_strlit("V6");
        }
        assert(r@ =~= code_of(self));
        r
    }
}

/// One broken rule, located in a file.
#[derive(Debug, Clone, PartialEq, Eq)]
pub struct Violation {
    pub rule: ValidationRule,
    pub file: String,
    pub id: String,
    pub message: String,
    /// Byte offset in `file` of the offending record; V6 points at the
    /// attribute line carrying the unknown key.
    pub offset: usize,
    /// 1-based line of `offset`, counting `\n` terminators; `None` when the
    /// source text was not available to fill it in.
    pub line: Option<usize>,
}

/// The mathematical value of a [`Violation`].
pub struct ViolationView {
    pub rule: ValidationRule,
    pub file: Seq<char>,
    pub id: Seq<char>,
    pub message: Seq<char>,
    pub offset: int,
    pub line: Option<int>,
}

impl View for Violation {
    type V = ViolationView;

    open spec fn view(&self) -> ViolationView {
        ViolationView {
            rule: self.rule,
            file: self.file@,
            id: self.id@,
            message: self.message@,
            offset: self.offset as int,
            line: match self.line {
                Some(l) => Some(l as int),
                None => None,
            },
        }
    }
}

/// The views of a list of violations.
pub open spec fn views(s: Seq<Violation>) -> Seq<ViolationView> {
    s.map_values(|v: Violation| v@)
}

/// A violation's report line: `V4: file: message [id]`.
pub open spec fn line_of_violation(v: ViolationView) -> Seq<char> {
    code_of(v.rule) + ": "@ + v.file + ": "@ + v.message + " ["@ + v.id + "]"@
}

impl Violation {
    /// The report line, `CODE: FILE: MESSAGE [ID]`.
    pub fn to_line(&self) -> (r: String)
        ensures
            r@ == line_of_violation(self@),
    {
        let mut r = str_to_string(self.rule.code());
        push_str(&mut r, ": ");
        push_str(&mut r, self.file.as_str());
        push_str(&mut r, ": ");
        push_str(&mut r, self.message.as_str());
        push_str(&mut r, " [");
        push_str(&mut r, self.id.as_str());
        push_str(&mut r, "]");
        r
    }
}

} // verus!

verus! {

/// What `str::to_lowercase` makes of a text.
pub uninterp spec fn lowercase(s: Seq<char>) -> Seq<char>;

/// `str::to_lowercase`: the text with every character mapped to its Unicode
/// lowercase form. The mapping is fixed by the Unicode tables of the standard
/// library and independent of any locale, so the result is named as a
/// function of the text; nothing more of it is stated here.
#[verifier::external_body]
fn to_lowercase(s: &str) -> (r: String)
    ensures
        r@ == lowercase(s@),
{
    s.to_lowercase()
}

/// ASCII letters and digits.
pub open spec fn ascii_alnum(c: char) -> bool {
    let u = c as u32;
    (48 <= u <= 57) || (65 <= u <= 90) || (97 <= u <= 122)
}

/// `k` occurs in `t` at position `i`.
pub open spec fn occurs_at(t: Seq<char>, k: Seq<char>, i: int) -> bool {
    0 <= i && i + k.len() <= t.len() && t.subrange(i, i + k.len()) == k
}

/// The occurrence of `k` at `i` is a whole word: no ASCII letter or digit
/// touches it on either side.
pub open spec fn bounded_at(t: Seq<char>, k: Seq<char>, i: int) -> bool {
    &&& (i == 0 || !ascii_alnum(t[i - 1]))
    &&& (i + k.len() >= t.len() || !ascii_alnum(t[i + k.len()]))
}

/// Whole-word occurrences of `k` in `t` from position `i` on, taking
/// occurrences left to right without overlap; an empty `k` occurs at every
/// position, the end included.
pub open spec fn count_from(t: Seq<char>, k: Seq<char>, i: int) -> nat
    decreases t.len() + 1 - i,
{
    if i < 0 || i + k.len() > t.len() {
        0
    } else if occurs_at(t, k, i) {
        let step = if k.len() == 0 {
            1
        } else {
            k.len() as int
        };
        (if bounded_at(t, k, i) {
            1nat
        } else {
            0nat
        }) + count_from(t, k, i + step)
    } else {
        count_from(t, k, i + 1)
    }
}

/// Whole-word occurrences of `k` in `t`.
pub open spec fn word_count(t: Seq<char>, k: Seq<char>) -> nat {
    count_from(t, k, 0)
}

/// How often `keyword` occurs as a word in `text`, ignoring case.
pub open spec fn keyword_count(text: Seq<char>, keyword: Seq<char>) -> nat {
    word_count(lowercase(text), lowercase(keyword))
}

/// `n`, or `usize::MAX` where `n` is larger.
pub open spec fn saturated(n: int) -> int {
    if n > usize::MAX {
        usize::MAX as int
    } else {
        n
    }
}

/// Whether `c` is an ASCII letter or digit.
fn is_ascii_alnum(c: char) -> (r: bool)
    ensures
        r == ascii_alnum(c),
{
    let u = c as u32;
    (48 <= u && u <= 57) || (65 <= u && u <= 90) || (97 <= u && u <= 122)
}

/// Whether `k` occurs in `t` at `i`.
fn occurs_in(t: &Vec<char>, k: &Vec<char>, i: usize) -> (r: bool)
    requires
        i + k@.len() <= t@.len(),
    ensures
        r == occurs_at(t@, k@, i as int),
{
    let n = t.len();
    let mut j: usize = 0;
    while j < k.len()
        invariant
            j <= k@.len(),
            n == t@.len(),
            i + k@.len() <= t@.len(),
            forall|m: int| 0 <= m < j ==> #[trigger] t@[i + m] == k@[m],
        decreases k@.len() - j,
    {
        if t[i + j] != k[j] {
            assert(t@.subrange(i as int, i + k@.len())[j as int] != k@[j as int]);
            return false;
        }
        j += 1;
    }
    assert forall|m: int| 0 <= m < k@.len() implies #[trigger] t@.subrange(
        i as int,
        i + k@.len(),
    )[m] == k@[m] by {
        assert(t@[i + m] == k@[m]);
    }
    assert(t@.subrange(i as int, i + k@.len()) =~= k@);
    true
}

/// Whole-word occurrences of `keyword` in `lower`, both taken as they are
/// (the caller has lowercased them), capped at `usize::MAX`.
pub fn count_words(lower: &str, keyword: &str) -> (r: usize)
    ensures
        r == saturated(word_count(lower@, keyword@) as int),
{
    let t = chars_of(lower);
    let k = chars_of(keyword);
    let n = t.len();
    let kl = k.len();
    if kl > n {
        return 0;
    }
    let last = n - kl;
    let mut count: usize = 0;
    let ghost mut g: nat = 0;
    let mut i: usize = 0;
    let mut more = true;
    while more
        invariant
            kl <= n,
            last == n - kl,
            n == t@.len(),
            kl == k@.len(),
            t@ == lower@,
            k@ == keyword@,
            more ==> i <= last,
            g + (if more {
                count_from(t@, k@, i as int)
            } else {
                0
            }) == word_count(t@, k@),
            count == saturated(g as int),
        decreases (if more {
            1int
        } else {
            0int
        }) + last - i,
    {
        let occ = occurs_in(&t, &k, i);
        if occ {
            let before_ok = i == 0 || !is_ascii_alnum(t[i - 1]);
            let after_ok = i + kl >= n || !is_ascii_alnum(t[i + kl]);
            assert(bounded_at(t@, k@, i as int) == (before_ok && after_ok));
            if before_ok && after_ok {
                proof {
                    g = g + 1;
                }
                if count < usize::MAX {
                    count += 1;
                }
            }
        }
        let step: usize = if occ && kl > 0 {
            kl
        } else {
            1
        };
        if step <= last - i {
            i = i + step;
        } else {
            assert(count_from(t@, k@, i + step) == 0);
            more = false;
        }
    }
    count
}

/// How often `keyword` occurs as a whole word in `text`, ignoring case:
/// occurrences are taken left to right without overlap in the lowercased
/// text, and one counts when no ASCII letter or digit touches it.
pub fn count_keyword(text: &str, keyword: &str) -> (r: usize)
    ensures
        r == saturated(keyword_count(text@, keyword@) as int),
{
    let lower = to_lowercase(text);
    let key = to_lowercase(keyword);
    count_words(lower.as_str(), key.as_str())
}

} // verus!

verus! {

/// The trace-link attribute names, all pointing upward: `refines`,
/// `derives-from` and `satisfies`, in that order.
pub open spec fn trace_key(k: int) -> Seq<char> {
    if k == 0 {
        "refines"@
    } else if k == 1 {
        "derives-from"@
    } else {
        "satisfies"@
    }
}

/// Trace-link attribute name `k` (0, 1 or 2).
pub fn trace_key_str(k: usize) -> (r: &'static str)
    requires
        k < 3,
    ensures
        r@ == trace_key(k as int),
{
    if k == 0 {
        "refines"
    } else if k == 1 {
        "derives-from"
    } else {
        "satisfies"
    }
}

/// The attribute vocabulary; other named keys break rule V6.
pub open spec fn known_key(n: Seq<char>) -> bool {
    ||| n == "kind"@
    ||| n == "modality"@
    ||| n == "status"@
    ||| n == "source"@
    ||| n == "verification"@
    ||| n == "volatility"@
    ||| n == "refines"@
    ||| n == "derives-from"@
    ||| n == "satisfies"@
    ||| n == "allocated-to"@
    ||| n == "characteristic"@
    ||| n == "rationale"@
}

/// Whether `name` is in the attribute vocabulary.
pub fn is_known_key(name: &str) -> (r: bool)
    ensures
        r == known_key(name@),
{
    str_eq(name, "kind") || str_eq(name, "modality") || str_eq(name, "status") || str_eq(
        name,
        "source",
    ) || str_eq(name, "verification") || str_eq(name, "volatility") || str_eq(name, "refines")
        || str_eq(name, "derives-from") || str_eq(name, "satisfies") || str_eq(
        name,
        "allocated-to",
    ) || str_eq(name, "characteristic") || str_eq(name, "rationale")
}

/// The pieces of `s` between separators seen so far, and the piece in
/// progress.
pub open spec fn split_state(s: Seq<char>, sep: char) -> (Seq<Seq<char>>, Seq<char>)
    decreases s.len(),
{
    if s.len() == 0 {
        (Seq::empty(), Seq::empty())
    } else {
        let (d, c) = split_state(s.drop_last(), sep);
        if s.last() == sep {
            (d.push(c), Seq::empty())
        } else {
            (d, c.push(s.last()))
        }
    }
}

/// The pieces of `s` between occurrences of `sep`, as `str::split` yields
/// them: `n` separators make `n + 1` pieces, empty ones included.
pub open spec fn split_on(s: Seq<char>, sep: char) -> Seq<Seq<char>> {
    let (d, c) = split_state(s, sep);
    d.push(c)
}

/// The pieces of `s` between occurrences of `sep`.
pub fn split_chars(s: &str, sep: char) -> (r: Vec<Vec<char>>)
    ensures
        vecs_view(r@) == split_on(s@, sep),
{
    let v = chars_of(s);
    let mut done: Vec<Vec<char>> = Vec::new();
    let mut cur: Vec<char> = Vec::new();
    let mut i: usize = 0;
    assert(v@.take(0) =~= Seq::<char>::empty());
    assert(vecs_view(done@) =~= Seq::<Seq<char>>::empty());
    while i < v.len()
        invariant
            i <= v@.len(),
            v@ == s@,
            (vecs_view(done@), cur@) == split_state(v@.take(i as int), sep),
        decreases v@.len() - i,
    {
        let ghost before = split_state(v@.take(i as int), sep);
        assert(v@.take(i + 1).drop_last() =~= v@.take(i as int));
        assert(v@.take(i + 1).last() == v@[i as int]);
        if v[i] == sep {
            let piece = cur;
            done.push(piece);
            cur = Vec::new();
            assert(vecs_view(done@) =~= before.0.push(before.1));
        } else {
            cur.push(v[i]);
        }
        i += 1;
    }
    assert(v@.take(v@.len() as int) =~= s@);
    let ghost st = split_state(s@, sep);
    done.push(cur);
    assert(vecs_view(done@) =~= st.0.push(st.1));
    done
}

/// Whether `a[lo..hi]` and `b` hold the same characters.
fn range_eq(a: &Vec<char>, lo: usize, hi: usize, b: &Vec<char>) -> (r: bool)
    requires
        lo <= hi <= a@.len(),
    ensures
        r == (a@.subrange(lo as int, hi as int) == b@),
{
    if hi - lo != b.len() {
        return false;
    }
    let mut j: usize = 0;
    while j < b.len()
        invariant
            j <= b@.len(),
            lo <= hi <= a@.len(),
            hi - lo == b@.len(),
            forall|m: int| 0 <= m < j ==> #[trigger] a@[lo + m] == b@[m],
        decreases b@.len() - j,
    {
        if a[lo + j] != b[j] {
            assert(a@.subrange(lo as int, hi as int)[j as int] != b@[j as int]);
            return false;
        }
        j += 1;
    }
    assert forall|m: int| 0 <= m < b@.len() implies #[trigger] a@.subrange(
        lo as int,
        hi as int,
    )[m] == b@[m] by {
        assert(a@[lo + m] == b@[m]);
    }
    assert(a@.subrange(lo as int, hi as int) =~= b@);
    true
}

} // verus!

verus! {

/// A violation located at the start of record `r`.
pub open spec fn at_record(r: Record, rule: ValidationRule, message: Seq<char>) -> ViolationView {
    ViolationView {
        rule,
        file: r.file@,
        id: r.id@,
        message,
        offset: r.span.start as int,
        line: None,
    }
}

/// The ids of the records, in order.
pub open spec fn ids_of(records: Seq<Record>) -> Seq<Seq<char>> {
    records.map_values(|r: Record| r.id@)
}

/// V2 for each of `parts` that, trimmed, names no record.
pub open spec fn missing_targets(
    records: Seq<Record>,
    r: Record,
    key: Seq<char>,
    parts: Seq<Seq<char>>,
) -> Seq<ViolationView>
    decreases parts.len(),
{
    if parts.len() == 0 {
        Seq::empty()
    } else {
        let t = trim(parts.last());
        missing_targets(records, r, key, parts.drop_last()) + if ids_of(records).contains(t) {
            Seq::empty()
        } else {
            seq![
                at_record(
                    r,
                    ValidationRule::UnresolvedTrace,
                    key + " target `"@ + t + "` not found"@,
                ),
            ]
        }
    }
}

/// V2 for the trace targets of record `r` under the first `k` trace keys.
pub open spec fn unresolved_upto(records: Seq<Record>, r: Record, k: int) -> Seq<ViolationView>
    decreases k,
{
    if k <= 0 {
        Seq::empty()
    } else {
        unresolved_upto(records, r, k - 1) + match lookup(fields_of(r), trace_key(k - 1)) {
            Some(v) => missing_targets(records, r, trace_key(k - 1), split_on(v, ',')),
            None => Seq::empty(),
        }
    }
}

/// The comma-separated targets of `v`, trimmed, include `id`.
pub open spec fn lists_target(v: Seq<char>, id: Seq<char>) -> bool {
    exists|q: int| 0 <= q < split_on(v, ',').len() && #[trigger] trim(split_on(v, ',')[q]) == id
}

/// A trace value lists `id` among its comma-separated targets.
pub open spec fn lists(value: Option<Seq<char>>, id: Seq<char>) -> bool {
    match value {
        Some(v) => lists_target(v, id),
        None => false,
    }
}

/// Record `o` traces to `id` under some trace key.
pub open spec fn traces_to(o: Record, id: Seq<char>) -> bool {
    ||| lists(lookup(fields_of(o), trace_key(0)), id)
    ||| lists(lookup(fields_of(o), trace_key(1)), id)
    ||| lists(lookup(fields_of(o), trace_key(2)), id)
}

/// Some record with another id traces to `r`: `r` is not a leaf.
pub open spec fn is_parent(records: Seq<Record>, r: Record) -> bool {
    exists|j: int|
        0 <= j < records.len() && records[j].id@ != r.id@ && #[trigger] traces_to(records[j], r.id@)
}

/// `Must::`, the marker of a quality requirement's entry.
pub open spec fn must_marker() -> Seq<char> {
    seq!['M', 'u', 's', 't', ':', ':']
}

/// `l` starts, after leading whitespace, with `Must::`.
pub open spec fn is_must_line(l: Seq<char>) -> bool {
    let s = trim_start(l);
    s.len() >= 6 && s.subrange(0, 6) == must_marker()
}

/// Some line of `body` is a `Must::` entry.
pub open spec fn has_must_entry(body: Seq<char>) -> bool {
    exists|q: int| 0 <= q < str_lines(body).len() && #[trigger] is_must_line(str_lines(body)[q])
}

/// Occurrences of the modality keywords `shall`, `should`, `may` and
/// `must` in a statement.
pub open spec fn keyword_total(stmt: Seq<char>) -> int {
    (keyword_count(stmt, "shall"@) + keyword_count(stmt, "should"@) + keyword_count(stmt, "may"@)
        + keyword_count(stmt, "must"@)) as int
}

/// V4 and V5 for record `r`: a quality requirement needs a `Must::` entry;
/// any other needs its statement to carry its modality and exactly one
/// modality keyword.
pub open spec fn modality_violations(r: Record) -> Seq<ViolationView> {
    let fields = fields_of(r);
    let stmt = statement_of(r.body_raw@);
    if lookup(fields, "kind"@) == Some("quality"@) {
        if has_must_entry(r.body_raw@) {
            Seq::empty()
        } else {
            seq![
                at_record(
                    r,
                    ValidationRule::ModalityDisagreement,
                    "quality requirement has no Must entry"@,
                ),
            ]
        }
    } else {
        let m = match lookup(fields, "modality"@) {
            Some(v) => v,
            None => Seq::empty(),
        };
        let total = keyword_total(stmt);
        (if total == 0 || keyword_count(stmt, m) == 0 {
            seq![
                at_record(
                    r,
                    ValidationRule::ModalityDisagreement,
                    "prose does not carry modality `"@ + m + "`: \""@ + stmt + "\""@,
                ),
            ]
        } else {
            Seq::empty()
        }) + (if total > 1 {
            seq![
                at_record(
                    r,
                    ValidationRule::CompoundStatement,
                    "more than one modality keyword in the statement"@,
                ),
            ]
        } else {
            Seq::empty()
        })
    }
}

/// V6 for each named item of `items` outside the vocabulary, located at
/// attribute line `line`.
pub open spec fn unknown_in_items(r: Record, line: AttrLine, items: Seq<ItemView>) -> Seq<
    ViolationView,
>
    decreases items.len(),
{
    if items.len() == 0 {
        Seq::empty()
    } else {
        unknown_in_items(r, line, items.drop_last()) + match items.last() {
            ItemView::Kv { name, value } => if known_key(name) {
                Seq::empty()
            } else {
                seq![
                    ViolationView {
                        rule: ValidationRule::UnknownAttribute,
                        file: r.file@,
                        id: r.id@,
                        message: "unknown attribute `"@ + name + "`"@,
                        offset: line.start as int,
                        line: None,
                    },
                ]
            },
            _ => Seq::empty(),
        }
    }
}

/// V6 over attribute lines, in order.
pub open spec fn unknown_in_lines(r: Record, lines: Seq<AttrLine>) -> Seq<ViolationView>
    decreases lines.len(),
{
    if lines.len() == 0 {
        Seq::empty()
    } else {
        unknown_in_lines(r, lines.drop_last()) + unknown_in_items(
            r,
            lines.last(),
            items_view(lines.last().items@),
        )
    }
}

/// Every violation of record `i`, in the order the rules are checked.
pub open spec fn record_violations(records: Seq<Record>, i: int) -> Seq<ViolationView> {
    let r = records[i];
    (if ids_of(records.take(i)).contains(r.id@) {
        seq![at_record(r, ValidationRule::DuplicateId, "duplicate requirement id"@)]
    } else {
        Seq::empty()
    }) + unresolved_upto(records, r, 3) + (if !is_parent(records, r) && lookup(
        fields_of(r),
        "verification"@,
    ) is None {
        seq![
            at_record(
                r,
                ValidationRule::MissingVerification,
                "leaf requirement has no verification attribute"@,
            ),
        ]
    } else {
        Seq::empty()
    }) + modality_violations(r) + unknown_in_lines(r, r.attr_lines@)
}

/// The violations of the first `n` records, record by record.
pub open spec fn raw_violations(records: Seq<Record>, n: int) -> Seq<ViolationView>
    decreases n,
{
    if n <= 0 {
        Seq::empty()
    } else {
        raw_violations(records, n - 1) + record_violations(records, n - 1)
    }
}

} // verus!

verus! {

/// Append `v` to `out`.
fn push_violation(out: &mut Vec<Violation>, v: Violation)
    ensures
        views(final(out)@) == views(old(out)@).push(v@),
{
    let ghost vv = v@;
    out.push(v);
    assert(views(out@) =~= views(old(out)@).push(vv));
}

/// A violation located at the start of record `r`.
fn violation(r: &Record, rule: ValidationRule, message: String) -> (v: Violation)
    ensures
        v@ == at_record(*r, rule, message@),
{
    Violation {
        rule,
        file: r.file.clone(),
        id: r.id.clone(),
        message,
        offset: r.span.start,
        line: None,
    }
}

/// Whether one of the first `i` records has id `id`.
pub(crate) fn id_among(records: &[Record], i: usize, id: &str) -> (r: bool)
    requires
        i <= records@.len(),
    ensures
        r == ids_of(records@.take(i as int)).contains(id@),
{
    let ghost ids = ids_of(records@.take(i as int));
    let mut j: usize = 0;
    while j < i
        invariant
            j <= i <= records@.len(),
            ids == ids_of(records@.take(i as int)),
            ids.len() == i,
            forall|m: int| 0 <= m < j ==> #[trigger] ids[m] != id@,
        decreases i - j,
    {
        assert(ids[j as int] == records@[j as int].id@);
        if str_eq(records[j].id.as_str(), id) {
            assert(ids[j as int] == id@);
            return true;
        }
        j += 1;
    }
    false
}

/// Whether `part[a..b]` is the id of some record.
fn id_known(records: &[Record], part: &Vec<char>, a: usize, b: usize) -> (r: bool)
    requires
        a <= b <= part@.len(),
    ensures
        r == ids_of(records@).contains(part@.subrange(a as int, b as int)),
{
    let ghost ids = ids_of(records@);
    let ghost t = part@.subrange(a as int, b as int);
    let mut j: usize = 0;
    while j < records.len()
        invariant
            j <= records@.len(),
            a <= b <= part@.len(),
            ids == ids_of(records@),
            ids.len() == records@.len(),
            t == part@.subrange(a as int, b as int),
            forall|m: int| 0 <= m < j ==> #[trigger] ids[m] != t,
        decreases records@.len() - j,
    {
        let idc = chars_of(records[j].id.as_str());
        assert(ids[j as int] == records@[j as int].id@);
        if range_eq(part, a, b, &idc) {
            return true;
        }
        j += 1;
    }
    false
}

/// Append V2 for each of `parts` that, trimmed, names no record.
fn push_missing(
    records: &[Record],
    r: &Record,
    key: &str,
    parts: &Vec<Vec<char>>,
    out: &mut Vec<Violation>,
)
    ensures
        views(final(out)@) == views(old(out)@) + missing_targets(
            records@,
            *r,
            key@,
            vecs_view(parts@),
        ),
{
    let ghost pv = vecs_view(parts@);
    let mut q: usize = 0;
    assert(pv.take(0) =~= Seq::<Seq<char>>::empty());
    assert(views(out@) =~= views(old(out)@) + missing_targets(records@, *r, key@, pv.take(0)));
    while q < parts.len()
        invariant
            q <= parts@.len(),
            pv == vecs_view(parts@),
            pv.len() == parts@.len(),
            views(out@) == views(old(out)@) + missing_targets(
                records@,
                *r,
                key@,
                pv.take(q as int),
            ),
        decreases parts@.len() - q,
    {
        let ghost before = views(out@);
        let part = &parts[q];
        assert(pv[q as int] == part@);
        assert(pv.take(q + 1).drop_last() =~= pv.take(q as int));
        assert(pv.take(q + 1).last() == part@);
        let (a, b) = crate::text::trim_bounds(part.as_slice(), 0, part.len());
        assert(part@.subrange(0, part@.len() as int) =~= part@);
        if !id_known(records, part, a, b) {
            let t = crate::text::string_of_range(part.as_slice(), a, b);
            let mut m = str_to_string(key);
            push_str(&mut m, " target `");
            push_str(&mut m, t.as_str());
            push_str(&mut m, "` not found");
            let v = violation(r, ValidationRule::UnresolvedTrace, m);
            push_violation(out, v);
        }
        q += 1;
        assert(views(out@) =~= views(old(out)@) + missing_targets(
            records@,
            *r,
            key@,
            pv.take(q as int),
        ));
    }
    assert(pv.take(parts@.len() as int) =~= pv);
}

/// Append V2 for every unresolved trace target of `r`.
fn push_unresolved(records: &[Record], r: &Record, out: &mut Vec<Violation>)
    ensures
        views(final(out)@) == views(old(out)@) + unresolved_upto(records@, *r, 3),
{
    let mut k: usize = 0;
    assert(views(out@) =~= views(old(out)@) + unresolved_upto(records@, *r, 0));
    while k < 3
        invariant
            k <= 3,
            views(out@) == views(old(out)@) + unresolved_upto(records@, *r, k as int),
        decreases 3 - k,
    {
        let key = trace_key_str(k);
        match r.field(key) {
            Some(v) => {
                let parts = split_chars(v.as_str(), ',');
                push_missing(records, r, key, &parts, out);
            },
            None => {},
        }
        k += 1;
        assert(views(out@) =~= views(old(out)@) + unresolved_upto(records@, *r, k as int));
    }
}

} // verus!

verus! {

/// Whether the trace value `value` lists `id` among its targets.
fn lists_id(value: &Option<String>, id: &Vec<char>) -> (r: bool)
    ensures
        r == lists(opt_view(*value), id@),
{
    match value {
        Some(v) => {
            let parts = split_chars(v.as_str(), ',');
            let ghost pv = vecs_view(parts@);
            let mut q: usize = 0;
            while q < parts.len()
                invariant
                    q <= parts@.len(),
                    pv == vecs_view(parts@),
                    pv == split_on(v@, ','),
                    opt_view(*value) == Some(v@),
                    pv.len() == parts@.len(),
                    forall|m: int| 0 <= m < q ==> #[trigger] trim(pv[m]) != id@,
                decreases parts@.len() - q,
            {
                let part = &parts[q];
                assert(pv[q as int] == part@);
                let (a, b) = crate::text::trim_bounds(part.as_slice(), 0, part.len());
                assert(part@.subrange(0, part@.len() as int) =~= part@);
                if range_eq(part, a, b, id) {
                    assert(trim(split_on(v@, ',')[q as int]) == id@);
                    assert(lists(opt_view(*value), id@));
                    return true;
                }
                q += 1;
            }
            false
        },
        None => false,
    }
}

/// Whether record `o` traces to `id`.
pub(crate) fn traces_to_id(o: &Record, id: &Vec<char>) -> (r: bool)
    ensures
        r == traces_to(*o, id@),
{
    let a = o.field(trace_key_str(0));
    if lists_id(&a, id) {
        return true;
    }
    let b = o.field(trace_key_str(1));
    if lists_id(&b, id) {
        return true;
    }
    let c = o.field(trace_key_str(2));
    lists_id(&c, id)
}

/// Whether some record with another id traces to `r`.
fn has_child(records: &[Record], r: &Record) -> (p: bool)
    ensures
        p == is_parent(records@, *r),
{
    let idc = chars_of(r.id.as_str());
    let mut j: usize = 0;
    while j < records.len()
        invariant
            j <= records@.len(),
            idc@ == r.id@,
            forall|m: int|
                0 <= m < j ==> !(records@[m].id@ != r.id@ && #[trigger] traces_to(
                    records@[m],
                    r.id@,
                )),
        decreases records@.len() - j,
    {
        let other = &records[j];
        if !str_eq(other.id.as_str(), r.id.as_str()) && traces_to_id(other, &idc) {
            assert(records@[j as int].id@ != r.id@ && traces_to(records@[j as int], r.id@));
            return true;
        }
        j += 1;
    }
    false
}

/// Append V3 when record `i` is a leaf without a verification method.
fn push_leaf(records: &[Record], i: usize, out: &mut Vec<Violation>)
    requires
        i < records@.len(),
    ensures
        views(final(out)@) == views(old(out)@) + (if !is_parent(records@, records@[i as int])
            && lookup(fields_of(records@[i as int]), "verification"@) is None {
            seq![
                at_record(
                    records@[i as int],
                    ValidationRule::MissingVerification,
                    "leaf requirement has no verification attribute"@,
                ),
            ]
        } else {
            Seq::empty()
        }),
{
    let r = &records[i];
    let parent = has_child(records, r);
    let verification = r.field("verification");
    if !parent && verification.is_none() {
        let v = violation(
            r,
            ValidationRule::MissingVerification,
            str_to_string("leaf requirement has no verification attribute"),
        );
        push_violation(out, v);
    } else {
        assert(views(out@) =~= views(old(out)@) + Seq::<ViolationView>::empty());
    }
}

/// Whether `l` starts, after leading whitespace, with `Must::`.
fn must_line(l: &Vec<char>) -> (r: bool)
    ensures
        r == is_must_line(l@),
{
    let n = l.len();
    let mut s: usize = 0;
    assert(l@.subrange(0, n as int) =~= l@);
    while s < n && crate::text::is_whitespace(l[s])
        invariant
            s <= n,
            n == l@.len(),
            trim_start(l@) == trim_start(l@.subrange(s as int, n as int)),
        decreases n - s,
    {
        assert(l@.subrange(s as int, n as int).drop_first() =~= l@.subrange(s + 1, n as int));
        s += 1;
    }
    assert(trim_start(l@) == l@.subrange(s as int, n as int));
    if n - s < 6 {
        return false;
    }
    let marker = vec!['M', 'u', 's', 't', ':', ':'];
    assert(marker@ =~= must_marker());
    let r = range_eq(l, s, s + 6, &marker);
    assert(trim_start(l@).subrange(0, 6) =~= l@.subrange(s as int, s + 6));
    r
}

/// Whether some line of `body` is a `Must::` entry.
fn has_must(body: &str) -> (r: bool)
    ensures
        r == has_must_entry(body@),
{
    let ls = crate::text::lines_of(body);
    let ghost lv = vecs_view(ls@);
    let mut q: usize = 0;
    while q < ls.len()
        invariant
            q <= ls@.len(),
            lv == vecs_view(ls@),
            lv == str_lines(body@),
            lv.len() == ls@.len(),
            forall|m: int| 0 <= m < q ==> !#[trigger] is_must_line(lv[m]),
        decreases ls@.len() - q,
    {
        assert(lv[q as int] == ls@[q as int]@);
        if must_line(&ls[q]) {
            return true;
        }
        q += 1;
    }
    false
}

} // verus!

verus! {

/// The violations of a record set, in report order.
pub open spec fn validated(records: Seq<Record>) -> Seq<ViolationView> {
    sort_violations(file_order(records), raw_violations(records, records.len() as int))
}

/// Append V4 and V5 for record `r`.
fn push_modality(r: &Record, out: &mut Vec<Violation>)
    ensures
        views(final(out)@) == views(old(out)@) + modality_violations(*r),
{
    let stmt = r.statement();
    let kind = r.field("kind");
    let quality = match &kind {
        Some(k) => str_eq(k.as_str(), "quality"),
        None => false,
    };
    if quality {
        assert(lookup(fields_of(*r), "kind"@) == Some("quality"@));
        if !has_must(r.body_raw.as_str()) {
            let v = violation(
                r,
                ValidationRule::ModalityDisagreement,
                str_to_string("quality requirement has no Must entry"),
            );
            push_violation(out, v);
        } else {
            assert(views(out@) =~= views(old(out)@) + Seq::<ViolationView>::empty());
        }
    } else {
        assert(lookup(fields_of(*r), "kind"@) != Some("quality"@));
        let ghost base = views(out@);
        let m = match r.field("modality") {
            Some(v) => v,
            None => String::new(),
        };
        let c1 = count_keyword(stmt.as_str(), "shall");
        let c2 = count_keyword(stmt.as_str(), "should");
        let c3 = count_keyword(stmt.as_str(), "may");
        let c4 = count_keyword(stmt.as_str(), "must");
        let cm = count_keyword(stmt.as_str(), m.as_str());
        let none = c1 == 0 && c2 == 0 && c3 == 0 && c4 == 0;
        let many = c1 > 1 || c2 > 1 || c3 > 1 || c4 > 1 || (c1 > 0 && c2 > 0) || (c1 > 0 && c3
            > 0) || (c1 > 0 && c4 > 0) || (c2 > 0 && c3 > 0) || (c2 > 0 && c4 > 0) || (c3 > 0
            && c4 > 0);
        let ghost total = keyword_total(stmt@);
        assert(none == (total == 0));
        assert(many == (total > 1));
        let ghost first = if total == 0 || keyword_count(stmt@, m@) == 0 {
            seq![
                at_record(
                    *r,
                    ValidationRule::ModalityDisagreement,
                    "prose does not carry modality `"@ + m@ + "`: \""@ + stmt@ + "\""@,
                ),
            ]
        } else {
            Seq::<ViolationView>::empty()
        };
        if none || cm == 0 {
            let mut msg = str_to_string("prose does not carry modality `");
            push_str(&mut msg, m.as_str());
            push_str(&mut msg, "`: \"");
            push_str(&mut msg, stmt.as_str());
            push_str(&mut msg, "\"");
            let v = violation(r, ValidationRule::ModalityDisagreement, msg);
            push_violation(out, v);
        } else {
            assert(views(out@) =~= base + Seq::<ViolationView>::empty());
        }
        assert(views(out@) =~= base + first);
        let ghost mid = views(out@);
        if many {
            let v = violation(
                r,
                ValidationRule::CompoundStatement,
                str_to_string("more than one modality keyword in the statement"),
            );
            push_violation(out, v);
        }
        assert(views(out@) =~= base + modality_violations(*r));
    }
}

/// Append V6 for every named item of `r` outside the vocabulary.
fn push_unknown(r: &Record, out: &mut Vec<Violation>)
    ensures
        views(final(out)@) == views(old(out)@) + unknown_in_lines(*r, r.attr_lines@),
{
    let mut l: usize = 0;
    assert(r.attr_lines@.take(0) =~= Seq::<AttrLine>::empty());
    assert(views(out@) =~= views(old(out)@) + unknown_in_lines(*r, r.attr_lines@.take(0)));
    while l < r.attr_lines.len()
        invariant
            l <= r.attr_lines@.len(),
            views(out@) == views(old(out)@) + unknown_in_lines(*r, r.attr_lines@.take(l as int)),
        decreases r.attr_lines@.len() - l,
    {
        let line = &r.attr_lines[l];
        let ghost iv = items_view(line.items@);
        let ghost base = views(out@);
        let mut i: usize = 0;
        assert(iv.take(0) =~= Seq::<ItemView>::empty());
        assert(views(out@) =~= base + unknown_in_items(*r, *line, iv.take(0)));
        while i < line.items.len()
            invariant
                i <= line.items@.len(),
                iv == items_view(line.items@),
                iv.len() == line.items@.len(),
                views(out@) == base + unknown_in_items(*r, *line, iv.take(i as int)),
            decreases line.items@.len() - i,
        {
            assert(iv.take(i + 1).drop_last() =~= iv.take(i as int));
            assert(iv.take(i + 1).last() == line.items@[i as int]@);
            match &line.items[i] {
                Item::Kv { name, value } => {
                    if !is_known_key(name.as_str()) {
                        let mut msg = str_to_string("unknown attribute `");
                        push_str(&mut msg, name.as_str());
                        push_str(&mut msg, "`");
                        let v = Violation {
                            rule: ValidationRule::UnknownAttribute,
                            file: r.file.clone(),
                            id: r.id.clone(),
                            message: msg,
                            offset: line.start,
                            line: None,
                        };
                        push_violation(out, v);
                    }
                },
                _ => {},
            }
            i += 1;
            assert(views(out@) =~= base + unknown_in_items(*r, *line, iv.take(i as int)));
        }
        assert(iv.take(iv.len() as int) =~= iv);
        assert(r.attr_lines@.take(l + 1).drop_last() =~= r.attr_lines@.take(l as int));
        assert(r.attr_lines@.take(l + 1).last() == *line);
        l += 1;
        assert(views(out@) =~= views(old(out)@) + unknown_in_lines(
            *r,
            r.attr_lines@.take(l as int),
        ));
    }
    assert(r.attr_lines@.take(r.attr_lines@.len() as int) =~= r.attr_lines@);
}

/// Append every violation of record `i`.
fn push_record(records: &[Record], i: usize, out: &mut Vec<Violation>)
    requires
        i < records@.len(),
    ensures
        views(final(out)@) == views(old(out)@) + record_violations(records@, i as int),
{
    let r = &records[i];
    let ghost s0 = views(out@);
    if id_among(records, i, r.id.as_str()) {
        let v = violation(
            r,
            ValidationRule::DuplicateId,
            str_to_string("duplicate requirement id"),
        );
        push_violation(out, v);
    }
    let ghost s1 = views(out@);
    push_unresolved(records, r, out);
    let ghost s2 = views(out@);
    push_leaf(records, i, out);
    let ghost s3 = views(out@);
    push_modality(r, out);
    let ghost s4 = views(out@);
    push_unknown(r, out);
    assert(views(out@) =~= views(old(out)@) + record_violations(records@, i as int));
}

/// `validate`: every violation of rules V1–V6 in `records`, which together
/// make up the file set; cross-record rules (V1, V2, V3) see the whole set.
/// Violations come in stable order: by the first appearance of their file
/// among the records, then by offset, then by rule; full ties keep the
/// order in which the rules found them.
pub fn validate(records: &[Record]) -> (r: Vec<Violation>)
    ensures
        views(r@) == validated(records@),
{
    let mut out: Vec<Violation> = Vec::new();
    let mut i: usize = 0;
    assert(views(out@) =~= raw_violations(records@, 0));
    while i < records.len()
        invariant
            i <= records@.len(),
            views(out@) == raw_violations(records@, i as int),
        decreases records@.len() - i,
    {
        push_record(records, i, &mut out);
        i += 1;
    }
    sort_stable(records, out)
}

} // verus!

verus! {

/// The distinct files of the records, in order of first appearance.
pub open spec fn file_order(records: Seq<Record>) -> Seq<Seq<char>>
    decreases records.len(),
{
    if records.len() == 0 {
        Seq::empty()
    } else {
        let fs = file_order(records.drop_last());
        if fs.contains(records.last().file@) {
            fs
        } else {
            fs.push(records.last().file@)
        }
    }
}

/// Index of the first `f` among `files`, or `-1`.
pub open spec fn position(files: Seq<Seq<char>>, f: Seq<char>) -> int
    decreases files.len(),
{
    if files.len() == 0 {
        -1
    } else if files[0] == f {
        0
    } else {
        let r = position(files.drop_first(), f);
        if r < 0 {
            -1
        } else {
            r + 1
        }
    }
}

/// The place of file `f` in the order: its index, or 0 when absent.
pub open spec fn file_rank(files: Seq<Seq<char>>, f: Seq<char>) -> int {
    let p = position(files, f);
    if p >= 0 {
        p
    } else {
        0
    }
}

/// The sort key of a violation: file, offset, rule.
pub open spec fn vkey(files: Seq<Seq<char>>, v: ViolationView) -> (int, int, int) {
    (file_rank(files, v.file), v.offset, rank(v.rule))
}

/// Lexicographic order on sort keys.
pub open spec fn key_le(a: (int, int, int), b: (int, int, int)) -> bool {
    a.0 < b.0 || (a.0 == b.0 && (a.1 < b.1 || (a.1 == b.1 && a.2 <= b.2)))
}

/// Where `x` goes in `s`: after the last element whose key is not above
/// its own, looking from the end.
pub open spec fn insert_pos(files: Seq<Seq<char>>, s: Seq<ViolationView>, x: ViolationView) -> int
    decreases s.len(),
{
    if s.len() == 0 {
        0
    } else if key_le(vkey(files, s.last()), vkey(files, x)) {
        s.len() as int
    } else {
        insert_pos(files, s.drop_last(), x)
    }
}

/// `s` stably sorted by key: each element is inserted, in turn, after the
/// elements already placed whose key is not above its own.
pub open spec fn sort_violations(files: Seq<Seq<char>>, s: Seq<ViolationView>) -> Seq<
    ViolationView,
>
    decreases s.len(),
{
    if s.len() == 0 {
        Seq::empty()
    } else {
        let t = sort_violations(files, s.drop_last());
        t.insert(insert_pos(files, t, s.last()), s.last())
    }
}

/// The first occurrence of `f` in `files` is at `position(files, f)`.
pub proof fn lemma_position(files: Seq<Seq<char>>, f: Seq<char>)
    ensures
        position(files, f) < files.len(),
        position(files, f) >= 0 ==> files[position(files, f)] == f,
        forall|k: int| 0 <= k < files.len() && (k < position(files, f) || position(files, f) < 0) ==> #[trigger] files[k] != f,
    decreases files.len(),
{
    if files.len() > 0 && files[0] != f {
        lemma_position(files.drop_first(), f);
        assert forall|k: int| 0 <= k < files.len() && (k < position(files, f) || position(files, f) < 0) implies #[trigger] files[k] != f by {
            if k > 0 {
                assert(files[k] == files.drop_first()[k - 1]);
            }
        }
    }
}

/// The views of a list of strings.
pub open spec fn strings_view(v: Seq<String>) -> Seq<Seq<char>> {
    v.map_values(|s: String| s@)
}

/// The distinct files of the records, in order of first appearance.
fn file_list(records: &[Record]) -> (r: Vec<String>)
    ensures
        strings_view(r@) == file_order(records@),
{
    let mut files: Vec<String> = Vec::new();
    let mut i: usize = 0;
    assert(records@.take(0) =~= Seq::<Record>::empty());
    assert(strings_view(files@) =~= file_order(records@.take(0)));
    while i < records.len()
        invariant
            i <= records@.len(),
            strings_view(files@) == file_order(records@.take(i as int)),
        decreases records@.len() - i,
    {
        let ghost fs = strings_view(files@);
        let f = &records[i].file;
        let mut j: usize = 0;
        let mut found = false;
        while j < files.len() && !found
            invariant
                j <= files@.len(),
                fs == strings_view(files@),
                fs.len() == files@.len(),
                found ==> j < files@.len() && fs[j as int] == f@,
                !found ==> forall|m: int| 0 <= m < j ==> #[trigger] fs[m] != f@,
            decreases files@.len() - j + (if found {
                0int
            } else {
                1int
            }),
        {
            if str_eq(files[j].as_str(), f.as_str()) {
                found = true;
            } else {
                j += 1;
            }
        }
        assert(records@.take(i + 1).drop_last() =~= records@.take(i as int));
        assert(records@.take(i + 1).last() == records@[i as int]);
        if !found {
            files.push(f.clone());
            assert(strings_view(files@) =~= fs.push(f@));
        } else {
            assert(fs.contains(f@));
        }
        i += 1;
    }
    assert(records@.take(records@.len() as int) =~= records@);
    files
}

/// The place of file `f` in `files`.
fn file_rank_of(files: &Vec<String>, f: &str) -> (r: usize)
    ensures
        r == file_rank(strings_view(files@), f@),
{
    let ghost fs = strings_view(files@);
    proof {
        lemma_position(fs, f@);
    }
    let mut j: usize = 0;
    while j < files.len()
        invariant
            j <= files@.len(),
            fs == strings_view(files@),
            fs.len() == files@.len(),
            forall|m: int| 0 <= m < j ==> #[trigger] fs[m] != f@,
            position(fs, f@) < fs.len(),
            position(fs, f@) >= 0 ==> fs[position(fs, f@)] == f@,
            forall|k: int| 0 <= k < fs.len() && (k < position(fs, f@) || position(fs, f@) < 0) ==> #[trigger] fs[k] != f@,
        decreases files@.len() - j,
    {
        if str_eq(files[j].as_str(), f) {
            assert(fs[j as int] == f@);
            return j;
        }
        j += 1;
    }
    0
}

/// The number of a rule.
fn rule_rank(rule: ValidationRule) -> (r: usize)
    ensures
        r == rank(rule),
{
    match rule {
        ValidationRule::DuplicateId => 1,
        ValidationRule::UnresolvedTrace => 2,
        ValidationRule::MissingVerification => 3,
        ValidationRule::ModalityDisagreement => 4,
        ValidationRule::CompoundStatement => 5,
        ValidationRule::UnknownAttribute => 6,
    }
}

/// A key as integers.
pub open spec fn key_view(k: (usize, usize, usize)) -> (int, int, int) {
    (k.0 as int, k.1 as int, k.2 as int)
}

/// Lexicographic order on keys.
fn key_leq(a: (usize, usize, usize), b: (usize, usize, usize)) -> (r: bool)
    ensures
        r == key_le(key_view(a), key_view(b)),
{
    a.0 < b.0 || (a.0 == b.0 && (a.1 < b.1 || (a.1 == b.1 && a.2 <= b.2)))
}

/// A violation with the same fields as `v`.
fn copy_violation(v: &Violation) -> (r: Violation)
    ensures
        r@ == v@,
{
    Violation {
        rule: v.rule,
        file: v.file.clone(),
        id: v.id.clone(),
        message: v.message.clone(),
        offset: v.offset,
        line: v.line,
    }
}

/// Stable violation order: file order among the records, then offset, then
/// rule; full ties keep their order in `violations`.
pub fn sort_stable(records: &[Record], violations: Vec<Violation>) -> (r: Vec<Violation>)
    ensures
        views(r@) == sort_violations(file_order(records@), views(violations@)),
{
    let files = file_list(records);
    let ghost fs = strings_view(files@);
    let ghost input = views(violations@);
    let mut sorted: Vec<Violation> = Vec::new();
    let mut keys: Vec<(usize, usize, usize)> = Vec::new();
    let mut k: usize = 0;
    assert(input.take(0) =~= Seq::<ViolationView>::empty());
    while k < violations.len()
        invariant
            k <= violations@.len(),
            fs == strings_view(files@),
            fs == file_order(records@),
            input == views(violations@),
            input.len() == violations@.len(),
            views(sorted@) == sort_violations(fs, input.take(k as int)),
            keys@.len() == sorted@.len(),
            forall|m: int| 0 <= m < keys@.len() ==> key_view(#[trigger] keys@[m]) == vkey(fs, sorted@[m]@),
        decreases violations@.len() - k,
    {
        let v = copy_violation(&violations[k]);
        let kx = (file_rank_of(&files, v.file.as_str()), v.offset, rule_rank(v.rule));
        let ghost t = views(sorted@);
        assert(input.take(k + 1).drop_last() =~= input.take(k as int));
        assert(input.take(k + 1).last() == v@);
        let mut j: usize = sorted.len();
        let mut more = j > 0 && !key_leq(keys[j - 1], kx);
        assert(t.take(j as int) =~= t);
        while more
            invariant
                j <= sorted@.len(),
                t == views(sorted@),
                t.len() == sorted@.len(),
                keys@.len() == sorted@.len(),
                forall|m: int| 0 <= m < keys@.len() ==> key_view(#[trigger] keys@[m]) == vkey(fs, sorted@[m]@),
                key_view(kx) == vkey(fs, v@),
                insert_pos(fs, t, v@) == insert_pos(fs, t.take(j as int), v@),
                more == (j > 0 && !key_le(vkey(fs, t[j - 1]), vkey(fs, v@))),
            decreases j,
        {
            assert(t.take(j as int).drop_last() =~= t.take(j - 1));
            assert(t.take(j as int).last() == t[j - 1]);
            j -= 1;
            more = j > 0 && !key_leq(keys[j - 1], kx);
            proof {
                if j > 0 {
                    assert(t[j - 1] == sorted@[j - 1]@);
                }
            }
        }
        proof {
            if j > 0 {
                assert(t.take(j as int).last() == t[j - 1]);
            } else {
                assert(t.take(0) =~= Seq::<ViolationView>::empty());
            }
        }
        let ghost vv = v@;
        let ghost ok = keys@;
        let ghost os = sorted@;
        sorted.insert(j, v);
        keys.insert(j, kx);
        assert(views(sorted@) =~= t.insert(j as int, vv));
        assert forall|m: int| 0 <= m < keys@.len() implies key_view(#[trigger] keys@[m]) == vkey(
            fs,
            sorted@[m]@,
        ) by {
            if m < j {
                assert(keys@[m] == ok[m] && sorted@[m] == os[m]);
            } else if m > j {
                assert(keys@[m] == ok[m - 1] && sorted@[m] == os[m - 1]);
            }
        }
        k += 1;
    }
    assert(input.take(violations@.len() as int) =~= input);
    sorted
}

} // verus!

verus! {

/// Keys never decrease along `s`.
pub open spec fn sorted_by_key(files: Seq<Seq<char>>, s: Seq<ViolationView>) -> bool {
    forall|i: int, j: int| 0 <= i < j < s.len() ==> key_le(vkey(files, #[trigger] s[i]), vkey(files, #[trigger] s[j]))
}

/// `insert_pos` lands after every element with a key not above `x`'s and
/// before every element with a key above it, in a sorted sequence.
proof fn lemma_insert_pos(files: Seq<Seq<char>>, t: Seq<ViolationView>, x: ViolationView)
    ensures
        0 <= insert_pos(files, t, x) <= t.len(),
        insert_pos(files, t, x) > 0 ==> key_le(
            vkey(files, t[insert_pos(files, t, x) - 1]),
            vkey(files, x),
        ),
        forall|m: int|
            insert_pos(files, t, x) <= m < t.len() ==> !key_le(vkey(files, #[trigger] t[m]), vkey(files, x)),
    decreases t.len(),
{
    if t.len() > 0 && !key_le(vkey(files, t.last()), vkey(files, x)) {
        lemma_insert_pos(files, t.drop_last(), x);
        assert forall|m: int|
            insert_pos(files, t, x) <= m < t.len() implies !key_le(vkey(files, #[trigger] t[m]), vkey(files, x)) by {
            if m < t.len() - 1 {
                assert(t[m] == t.drop_last()[m]);
            }
        }
    }
}

/// Sorting orders the violations by key and keeps every one of them, no
/// more and no fewer.
pub proof fn lemma_sort_violations(files: Seq<Seq<char>>, s: Seq<ViolationView>)
    ensures
        sorted_by_key(files, sort_violations(files, s)),
        sort_violations(files, s).to_multiset() == s.to_multiset(),
        sort_violations(files, s).len() == s.len(),
    decreases s.len(),
{
    broadcast use vstd::seq_lib::to_multiset_build, vstd::seq_lib::to_multiset_insert;

    if s.len() > 0 {
        let t = sort_violations(files, s.drop_last());
        let x = s.last();
        lemma_sort_violations(files, s.drop_last());
        lemma_insert_pos(files, t, x);
        let p = insert_pos(files, t, x);
        let u = t.insert(p, x);
        assert forall|i: int, j: int| 0 <= i < j < u.len() implies key_le(
            vkey(files, #[trigger] u[i]),
            vkey(files, #[trigger] u[j]),
        ) by {
            if j < p {
                assert(u[i] == t[i] && u[j] == t[j]);
            } else if j == p {
                assert(u[i] == t[i]);
                assert(key_le(vkey(files, t[i]), vkey(files, t[p - 1])));
            } else if i < p {
                assert(u[i] == t[i] && u[j] == t[j - 1]);
            } else if i == p {
                assert(u[j] == t[j - 1]);
                assert(!key_le(vkey(files, t[j - 1]), vkey(files, x)));
            } else {
                assert(u[i] == t[i - 1] && u[j] == t[j - 1]);
            }
        }
        assert(s.drop_last().push(x) =~= s);
        assert(u.to_multiset() == t.to_multiset().insert(x));
        assert(s.drop_last().push(x).to_multiset() == s.drop_last().to_multiset().insert(x));
    } else {
        assert(s =~= Seq::<ViolationView>::empty());
    }
}

/// `validate`'s order: the violations of a record set come sorted by file,
/// then offset, then rule, and are exactly the violations the rules find.
pub proof fn lemma_validate_order(records: Seq<Record>)
    ensures
        sorted_by_key(
            file_order(records),
            sort_violations(file_order(records), raw_violations(records, records.len() as int)),
        ),
        sort_violations(
            file_order(records),
            raw_violations(records, records.len() as int),
        ).to_multiset() == raw_violations(records, records.len() as int).to_multiset(),
{
    lemma_sort_violations(file_order(records), raw_violations(records, records.len() as int));
}

} // verus!

verus! {

/// Everything one `check` run saw: how many requirements and what failed.
#[derive(Debug, Clone, PartialEq, Eq)]
pub struct CheckOutcome {
    /// Requirement records extracted across the file set.
    pub requirement_count: usize,
    /// All violations, in stable order: file-argument order, then span
    /// start, then rule code.
    pub violations: Vec<Violation>,
}

/// Every source text fits the machine: its length is below `usize::MAX`.
pub open spec fn sources_fit(sources: Seq<(String, String)>) -> bool {
    forall|k: int| 0 <= k < sources.len() ==> encode_utf8((#[trigger] sources[k]).1@).len() < usize::MAX
}

/// `at`, or the length of `b` where `at` lies past it.
pub open spec fn clamp(b: Seq<u8>, at: int) -> int {
    if at <= b.len() {
        at
    } else {
        b.len() as int
    }
}

/// The line of byte `offset` in the first source named `file`, if any.
pub open spec fn source_line(sources: Seq<(String, String)>, file: Seq<char>, offset: int) -> Option<
    int,
>
    decreases sources.len(),
{
    if sources.len() == 0 {
        None
    } else if sources[0].0@ == file {
        let b = encode_utf8(sources[0].1@);
        Some(line_number_spec(b, clamp(b, offset)))
    } else {
        source_line(sources.drop_first(), file, offset)
    }
}

/// `v` with its line filled in from the sources.
pub open spec fn with_line(sources: Seq<(String, String)>, v: ViolationView) -> ViolationView {
    ViolationView {
        rule: v.rule,
        file: v.file,
        id: v.id,
        message: v.message,
        offset: v.offset,
        line: source_line(sources, v.file, v.offset),
    }
}

/// The violations with their lines filled in from the sources.
pub open spec fn located(sources: Seq<(String, String)>, s: Seq<ViolationView>) -> Seq<
    ViolationView,
> {
    s.map_values(|v: ViolationView| with_line(sources, v))
}

/// The outcome of checking `records`, extracted from `sources`.
pub open spec fn outcome(sources: Seq<(String, String)>, records: Seq<Record>) -> (
    int,
    Seq<ViolationView>,
) {
    (records.len() as int, located(sources, validated(records)))
}

/// The groups one after another.
pub open spec fn concat_all(groups: Seq<Seq<Record>>) -> Seq<Record>
    decreases groups.len(),
{
    if groups.len() == 0 {
        Seq::empty()
    } else {
        concat_all(groups.drop_last()) + groups.last()
    }
}

/// Source `k` names a file that an earlier source names too.
pub open spec fn named_before(sources: Seq<(String, String)>, k: int) -> bool {
    exists|j: int| 0 <= j < k && (#[trigger] sources[j]).0@ == sources[k].0@
}

/// The sources with every repeated file name dropped: each file is checked
/// once, with the text it first came with.
pub open spec fn distinct_sources(sources: Seq<(String, String)>) -> Seq<(String, String)>
    decreases sources.len(),
{
    if sources.len() == 0 {
        Seq::empty()
    } else {
        distinct_sources(sources.drop_last()) + if named_before(sources, sources.len() - 1) {
            Seq::empty()
        } else {
            seq![sources.last()]
        }
    }
}

/// Group `k` holds the records `extract` gives for source `k`, for every
/// source in argument order.
pub open spec fn groups_from(groups: Seq<Seq<Record>>, sources: Seq<(String, String)>) -> bool {
    &&& groups.len() == sources.len()
    &&& forall|k: int|
        0 <= k < groups.len() ==> extracted(#[trigger] groups[k], sources[k].0@, encode_utf8(sources[k].1@))
}

/// 1-based line carrying byte offset `at` of `source`; `\n`-counted, so LF
/// and CRLF texts report the same line numbers. Offsets past the end count
/// every line.
pub fn line_of(source: &str, at: usize) -> (r: usize)
    requires
        source.spec_bytes().len() < usize::MAX,
    ensures
        r == line_number_spec(source.spec_bytes(), clamp(source.spec_bytes(), at as int)),
{
    line_number(source, at)
}

/// The line of byte `offset` in the first source named `file`.
fn find_line(sources: &[(String, String)], file: &str, offset: usize) -> (r: Option<usize>)
    requires
        sources_fit(sources@),
    ensures
        match r {
            Some(l) => source_line(sources@, file@, offset as int) == Some(l as int),
            None => source_line(sources@, file@, offset as int) is None,
        },
{
    let mut k: usize = 0;
    assert(sources@.skip(0) =~= sources@);
    while k < sources.len()
        invariant
            k <= sources@.len(),
            sources_fit(sources@),
            source_line(sources@, file@, offset as int) == source_line(
                sources@.skip(k as int),
                file@,
                offset as int,
            ),
        decreases sources@.len() - k,
    {
        let ghost rest = sources@.skip(k as int);
        assert(rest[0] == sources@[k as int]);
        if str_eq(sources[k].0.as_str(), file) {
            let text = sources[k].1.as_str();
            assert(text.spec_bytes() == encode_utf8(sources@[k as int].1@));
            return Some(line_of(text, offset));
        }
        assert(rest.drop_first() =~= sources@.skip(k + 1));
        k += 1;
    }
    None
}

/// The outcome of checking `records`, which were extracted from `sources`
/// (name and text of each file, in argument order): the requirement count
/// and every violation, in report order, with its line filled in from the
/// first source of its file.
pub fn outcome_of(sources: &[(String, String)], records: &[Record]) -> (o: CheckOutcome)
    requires
        sources_fit(sources@),
    ensures
        (o.requirement_count as int, views(o.violations@)) == outcome(sources@, records@),
{
    let found = validate(records);
    let ghost fv = views(found@);
    let mut out: Vec<Violation> = Vec::new();
    let mut i: usize = 0;
    while i < found.len()
        invariant
            i <= found@.len(),
            fv == views(found@),
            fv == validated(records@),
            sources_fit(sources@),
            views(out@) == located(sources@, fv.take(i as int)),
        decreases found@.len() - i,
    {
        let mut v = copy_violation(&found[i]);
        let line = find_line(sources, v.file.as_str(), v.offset);
        v.line = line;
        let ghost vv = v@;
        let ghost before = views(out@);
        out.push(v);
        assert(fv[i as int] == found@[i as int]@);
        assert(vv == with_line(sources@, fv[i as int]));
        assert(fv.take(i + 1) =~= fv.take(i as int).push(fv[i as int]));
        assert(views(out@) =~= before.push(vv));
        assert(located(sources@, fv.take(i + 1)) =~= located(sources@, fv.take(i as int)).push(
            with_line(sources@, fv[i as int]),
        ));
        i += 1;
    }
    assert(fv.take(found@.len() as int) =~= fv);
    CheckOutcome { requirement_count: records.len(), violations: out }
}

/// `check` plus the requirement count: extract every file (name and text,
/// in argument order; a file named again is read once) and validate the
/// whole set; cross-file rules see every record. The first file that does
/// not extract stops the run with its error; no file, no requirement and no
/// violation.
pub fn check_outcome(sources: &[(String, String)]) -> (r: Result<CheckOutcome, Error>)
    requires
        sources_fit(sources@),
    ensures
        sources@.len() == 0 ==> (r matches Ok(o) && o.requirement_count == 0
            && o.violations@.len() == 0),
        match r {
            Ok(o) => exists|groups: Seq<Seq<Record>>|
                #[trigger] groups_from(groups, distinct_sources(sources@)) && (
                    o.requirement_count as int,
                    views(o.violations@),
                ) == outcome(sources@, concat_all(groups)),
            Err(e) => e matches Error::Parse(m) && exists|k: int|
                0 <= k < sources@.len() && #[trigger] refused_text(
                    m@,
                    sources@[k].0@,
                    encode_utf8(sources@[k].1@),
                ),
        },
{
    let mut records: Vec<Record> = Vec::new();
    let ghost mut groups: Seq<Seq<Record>> = Seq::empty();
    let mut k: usize = 0;
    assert(sources@.take(0) =~= Seq::<(String, String)>::empty());
    while k < sources.len()
        invariant
            k <= sources@.len(),
            records@ == concat_all(groups),
            groups_from(groups, distinct_sources(sources@.take(k as int))),
        decreases sources@.len() - k,
    {
        let ghost before = groups;
        let ghost s1 = sources@.take(k + 1);
        assert(s1.drop_last() =~= sources@.take(k as int));
        assert(s1.last() == sources@[k as int]);
        let name = sources[k].0.as_str();
        let mut seen = false;
        let mut j: usize = 0;
        while j < k && !seen
            invariant
                j <= k < sources@.len(),
                s1 == sources@.take(k + 1),
                name@ == sources@[k as int].0@,
                seen ==> named_before(s1, k as int),
                !seen ==> forall|q: int| 0 <= q < j ==> (#[trigger] sources@[q]).0@ != name@,
            decreases k - j + (if seen {
                0int
            } else {
                1int
            }),
        {
            if str_eq(sources[j].0.as_str(), name) {
                assert(s1[j as int] == sources@[j as int]);
                seen = true;
            } else {
                j += 1;
            }
        }
        if !seen {
            assert(!named_before(s1, k as int)) by {
                if named_before(s1, k as int) {
                    let q = choose|q: int| 0 <= q < k && (#[trigger] s1[q]).0@ == s1[k as int].0@;
                    assert(s1[q] == sources@[q]);
                }
            }
            let text = sources[k].1.as_str();
            match crate::extract::extract(name, text) {
                Ok(rs) => {
                    let mut rs = rs;
                    let ghost got = rs@;
                    records.append(&mut rs);
                    proof {
                        groups = groups.push(got);
                        assert(groups.drop_last() =~= before);
                        let ds = distinct_sources(s1);
                        assert(ds =~= distinct_sources(sources@.take(k as int)).push(sources@[k as int]));
                        assert forall|q: int| 0 <= q < groups.len() implies extracted(
                            #[trigger] groups[q],
                            ds[q].0@,
                            encode_utf8(ds[q].1@),
                        ) by {
                            if q < before.len() {
                                assert(groups[q] == before[q]);
                            }
                        }
                    }
                },
                Err(e) => {
                    assert(refused_text(
                        e->Parse_0@,
                        sources@[k as int].0@,
                        encode_utf8(sources@[k as int].1@),
                    ));
                    return Err(e);
                },
            }
        } else {
            assert(distinct_sources(s1) =~= distinct_sources(sources@.take(k as int)));
        }
        k += 1;
    }
    assert(sources@.take(sources@.len() as int) =~= sources@);
    let o = outcome_of(sources, records.as_slice());
    proof {
        if sources@.len() == 0 {
            assert(groups.len() == 0);
            assert(concat_all(groups) =~= Seq::<Record>::empty());
            assert(raw_violations(Seq::<Record>::empty(), 0) =~= Seq::<ViolationView>::empty());
            assert(validated(Seq::<Record>::empty()) =~= Seq::<ViolationView>::empty());
            assert(views(o.violations@).len() == 0);
        }
    }
    Ok(o)
}

/// `check`: extract and validate every file (a file named again is read
/// once); the violations of the whole set, in report order.
pub fn check(sources: &[(String, String)]) -> (r: Result<Vec<Violation>, Error>)
    requires
        sources_fit(sources@),
    ensures
        sources@.len() == 0 ==> (r matches Ok(vs) && vs@.len() == 0),
        match r {
            Ok(vs) => exists|groups: Seq<Seq<Record>>|
                #[trigger] groups_from(groups, distinct_sources(sources@)) && views(vs@) == outcome(
                    sources@,
                    concat_all(groups),
                ).1,
            Err(e) => e matches Error::Parse(m) && exists|k: int|
                0 <= k < sources@.len() && #[trigger] refused_text(
                    m@,
                    sources@[k].0@,
                    encode_utf8(sources@[k].1@),
                ),
        },
{
    match check_outcome(sources) {
        Ok(o) => Ok(o.violations),
        Err(e) => Err(e),
    }
}

} // verus!

verus! {

/// How many of `vs` break `rule`.
pub open spec fn rule_count(vs: Seq<ViolationView>, rule: ValidationRule) -> nat
    decreases vs.len(),
{
    if vs.len() == 0 {
        0
    } else {
        rule_count(vs.drop_last(), rule) + if vs.last().rule == rule {
            1nat
        } else {
            0nat
        }
    }
}

/// `n noun`, with an `s` unless `n` is one.
pub open spec fn counted(n: nat, noun: Seq<char>) -> Seq<char> {
    decimal(n) + seq![' '] + noun + if n == 1 {
        Seq::empty()
    } else {
        seq!['s']
    }
}

/// The rule with number `k` (1 through 6).
pub open spec fn rule_of(k: int) -> ValidationRule {
    if k == 1 {
        ValidationRule::DuplicateId
    } else if k == 2 {
        ValidationRule::UnresolvedTrace
    } else if k == 3 {
        ValidationRule::MissingVerification
    } else if k == 4 {
        ValidationRule::ModalityDisagreement
    } else if k == 5 {
        ValidationRule::CompoundStatement
    } else {
        ValidationRule::UnknownAttribute
    }
}

/// ` V1=a V2=b ...` for the rules `1..=k`.
pub open spec fn per_rule(vs: Seq<ViolationView>, k: int) -> Seq<char>
    decreases k,
{
    if k <= 0 {
        Seq::empty()
    } else {
        per_rule(vs, k - 1) + seq![' '] + code_of(rule_of(k)) + seq!['='] + decimal(
            rule_count(vs, rule_of(k)),
        )
    }
}

/// The summary of a `check` run over `files` files.
pub open spec fn summary_text(files: nat, requirements: nat, vs: Seq<ViolationView>) -> Seq<char> {
    "checked "@ + counted(files, "file"@) + ", "@ + counted(requirements, "requirement"@) + ", "@
        + counted(vs.len(), "violation"@) + seq!['\n'] + "violations by rule:"@ + per_rule(vs, 6)
        + seq!['\n']
}

/// Append `n noun`, with an `s` unless `n` is one.
fn push_counted(s: &mut String, n: usize, noun: &str)
    ensures
        final(s)@ == old(s)@ + counted(n as nat, noun@),
{
    push_decimal(s, n);
    crate::text::push_char(s, ' ');
    push_str(s, noun);
    if n != 1 {
        crate::text::push_char(s, 's');
    }
    assert(s@ =~= old(s)@ + counted(n as nat, noun@));
}

/// How many of `vs` break `rule`.
fn count_rule(vs: &Vec<Violation>, rule: ValidationRule) -> (r: usize)
    ensures
        r == rule_count(views(vs@), rule),
{
    let ghost vv = views(vs@);
    let mut n: usize = 0;
    let mut i: usize = 0;
    assert(vv.take(0) =~= Seq::<ViolationView>::empty());
    while i < vs.len()
        invariant
            i <= vs@.len(),
            vv == views(vs@),
            vv.len() == vs@.len(),
            n == rule_count(vv.take(i as int), rule),
            n <= i,
        decreases vs@.len() - i,
    {
        assert(vv.take(i + 1).drop_last() =~= vv.take(i as int));
        assert(vv.take(i + 1).last() == vs@[i as int]@);
        if vs[i].rule == rule {
            n += 1;
        }
        i += 1;
    }
    assert(vv.take(vs@.len() as int) =~= vv);
    n
}

/// The rule with number `k`.
fn rule_numbered(k: usize) -> (r: ValidationRule)
    requires
        1 <= k <= 6,
    ensures
        r == rule_of(k as int),
{
    if k == 1 {
        ValidationRule::DuplicateId
    } else if k == 2 {
        ValidationRule::UnresolvedTrace
    } else if k == 3 {
        ValidationRule::MissingVerification
    } else if k == 4 {
        ValidationRule::ModalityDisagreement
    } else if k == 5 {
        ValidationRule::CompoundStatement
    } else {
        ValidationRule::UnknownAttribute
    }
}

/// The summary of a `check` run over `file_count` files:
/// `checked 1 file, 4 requirements, 4 violations` and the count of every
/// rule, `violations by rule: V1=0 V2=1 ...`, each on its own line.
pub fn summary(file_count: usize, outcome: &CheckOutcome) -> (r: String)
    ensures
        r@ == summary_text(
            file_count as nat,
            outcome.requirement_count as nat,
            views(outcome.violations@),
        ),
{
    let ghost vv = views(outcome.violations@);
    let mut s = str_to_string("checked ");
    push_counted(&mut s, file_count, "file");
    push_str(&mut s, ", ");
    push_counted(&mut s, outcome.requirement_count, "requirement");
    push_str(&mut s, ", ");
    push_counted(&mut s, outcome.violations.len(), "violation");
    crate::text::push_char(&mut s, '\n');
    push_str(&mut s, "violations by rule:");
    let ghost head = s@;
    let mut k: usize = 1;
    while k <= 6
        invariant
            1 <= k <= 7,
            vv == views(outcome.violations@),
            s@ == head + per_rule(vv, k - 1),
        decreases 7 - k,
    {
        let rule = rule_numbered(k);
        crate::text::push_char(&mut s, ' ');
        push_str(&mut s, rule.code());
        crate::text::push_char(&mut s, '=');
        push_decimal(&mut s, count_rule(&outcome.violations, rule));
        assert(s@ =~= head + per_rule(vv, k as int));
        k += 1;
    }
    crate::text::push_char(&mut s, '\n');
    assert(s@ =~= summary_text(file_count as nat, outcome.requirement_count as nat, vv));
    s
}

/// The violations of `vs` that break one of `rules`, in order.
pub open spec fn only_rules_spec(vs: Seq<ViolationView>, rules: Seq<ValidationRule>) -> Seq<
    ViolationView,
> {
    vs.filter(|v: ViolationView| rules.contains(v.rule))
}

/// The violations that break one of `rules`, in order.
pub fn only_rules(vs: &Vec<Violation>, rules: &[ValidationRule]) -> (r: Vec<Violation>)
    ensures
        views(r@) == only_rules_spec(views(vs@), rules@),
{
    let ghost vv = views(vs@);
    let mut out: Vec<Violation> = Vec::new();
    let mut i: usize = 0;
    assert(vv.take(0) =~= Seq::<ViolationView>::empty());
    while i < vs.len()
        invariant
            i <= vs@.len(),
            vv == views(vs@),
            vv.len() == vs@.len(),
            views(out@) == only_rules_spec(vv.take(i as int), rules@),
        decreases vs@.len() - i,
    {
        let ghost before = views(out@);
        assert(vv.take(i + 1).drop_last() =~= vv.take(i as int));
        assert(vv.take(i + 1).last() == vs@[i as int]@);
        let mut keep = false;
        let mut j: usize = 0;
        while j < rules.len() && !keep
            invariant
                j <= rules@.len(),
                i < vs@.len(),
                keep ==> j < rules@.len() && rules@[j as int] == vs@[i as int].rule,
                !keep ==> forall|m: int| 0 <= m < j ==> #[trigger] rules@[m] != vs@[i as int].rule,
            decreases rules@.len() - j + (if keep {
                0int
            } else {
                1int
            }),
        {
            if rules[j] == vs[i].rule {
                keep = true;
            } else {
                j += 1;
            }
        }
        proof {
            vv.take(i as int).lemma_filter_push(vv[i as int], |v: ViolationView| rules@.contains(v.rule));
            assert(vv.take(i + 1) =~= vv.take(i as int).push(vv[i as int]));
            if !keep {
                assert(!rules@.contains(vs@[i as int].rule));
            }
        }
        if keep {
            let v = copy_violation(&vs[i]);
            let ghost vv2 = v@;
            out.push(v);
            assert(views(out@) =~= before.push(vv2));
        }
        i += 1;
    }
    assert(vv.take(vs@.len() as int) =~= vv);
    out
}

} // verus!

verus! {

/// The violations of `s` whose key is `k`, in order.
pub open spec fn with_key(files: Seq<Seq<char>>, s: Seq<ViolationView>, k: (int, int, int)) -> Seq<
    ViolationView,
>
    decreases s.len(),
{
    if s.len() == 0 {
        Seq::empty()
    } else {
        with_key(files, s.drop_last(), k) + if vkey(files, s.last()) == k {
            seq![s.last()]
        } else {
            Seq::empty()
        }
    }
}

/// Selecting by key distributes over concatenation.
proof fn lemma_with_key_concat(
    files: Seq<Seq<char>>,
    a: Seq<ViolationView>,
    b: Seq<ViolationView>,
    k: (int, int, int),
)
    ensures
        with_key(files, a + b, k) == with_key(files, a, k) + with_key(files, b, k),
    decreases b.len(),
{
    if b.len() == 0 {
        assert(a + b =~= a);
        assert(with_key(files, a, k) + Seq::<ViolationView>::empty() =~= with_key(files, a, k));
    } else {
        lemma_with_key_concat(files, a, b.drop_last(), k);
        assert((a + b).drop_last() =~= a + b.drop_last());
        assert((a + b).last() == b.last());
        assert(with_key(files, a + b, k) =~= with_key(files, a, k) + with_key(files, b, k));
    }
}

/// No element with key `k`, nothing selected.
proof fn lemma_with_key_none(files: Seq<Seq<char>>, s: Seq<ViolationView>, k: (int, int, int))
    requires
        forall|i: int| 0 <= i < s.len() ==> vkey(files, #[trigger] s[i]) != k,
    ensures
        with_key(files, s, k) == Seq::<ViolationView>::empty(),
    decreases s.len(),
{
    if s.len() > 0 {
        assert forall|i: int| 0 <= i < s.len() - 1 implies vkey(files, #[trigger] s.drop_last()[i]) != k by {
            assert(s.drop_last()[i] == s[i]);
        }
        lemma_with_key_none(files, s.drop_last(), k);
    }
}

/// Sorting keeps, for every key, the order of the violations with that
/// key.
proof fn lemma_sort_keeps_ties(files: Seq<Seq<char>>, s: Seq<ViolationView>, k: (int, int, int))
    ensures
        with_key(files, sort_violations(files, s), k) == with_key(files, s, k),
    decreases s.len(),
{
    if s.len() > 0 {
        let t = sort_violations(files, s.drop_last());
        let x = s.last();
        lemma_sort_keeps_ties(files, s.drop_last(), k);
        lemma_sort_violations(files, s.drop_last());
        lemma_insert_pos(files, t, x);
        let p = insert_pos(files, t, x);
        let front = t.take(p);
        let back = t.skip(p);
        assert(t =~= front + back);
        assert(t.insert(p, x) =~= front + seq![x] + back);
        lemma_with_key_concat(files, front + seq![x], back, k);
        lemma_with_key_concat(files, front, seq![x], k);
        lemma_with_key_concat(files, front, back, k);
        assert(seq![x].drop_last() =~= Seq::<ViolationView>::empty());
        let one = if vkey(files, x) == k {
            seq![x]
        } else {
            Seq::<ViolationView>::empty()
        };
        assert(seq![x].last() == x);
        assert(with_key(files, Seq::<ViolationView>::empty(), k) == Seq::<ViolationView>::empty());
        assert(with_key(files, seq![x], k) == with_key(files, seq![x].drop_last(), k) + one);
        assert(with_key(files, seq![x], k) =~= one);
        assert(with_key(files, t.insert(p, x), k) == with_key(files, front, k) + one + with_key(
            files,
            back,
            k,
        ));
        assert(with_key(files, t, k) == with_key(files, front, k) + with_key(files, back, k));
        if vkey(files, x) == k {
            assert forall|i: int| 0 <= i < back.len() implies vkey(files, #[trigger] back[i]) != k by {
                assert(back[i] == t[p + i]);
            }
            lemma_with_key_none(files, back, k);
            assert(with_key(files, t, k) =~= with_key(files, front, k));
            assert(with_key(files, t.insert(p, x), k) =~= with_key(files, t, k) + one);
        } else {
            assert(with_key(files, t.insert(p, x), k) =~= with_key(files, t, k));
        }
        assert(s.drop_last().push(x) =~= s);
        assert(with_key(files, s, k) == with_key(files, s.drop_last(), k) + one);
        assert(with_key(files, t.insert(p, x), k) =~= with_key(files, s, k));
    }
}

/// Law: full ties keep their order. For every key (file, offset, rule),
/// the violations `validate` reports with that key come in the order the
/// rules found them.
pub proof fn lemma_validate_keeps_ties(records: Seq<Record>, k: (int, int, int))
    ensures
        with_key(file_order(records), validated(records), k) == with_key(
            file_order(records),
            raw_violations(records, records.len() as int),
            k,
        ),
{
    lemma_sort_keeps_ties(file_order(records), raw_violations(records, records.len() as int), k);
}

} // verus!

verus! {

/// No two records start at the same place of the same file.
pub open spec fn distinct_places(records: Seq<Record>) -> bool {
    forall|i: int, j: int|
        0 <= i < records.len() && 0 <= j < records.len() && i != j ==> (#[trigger] records[i]).file@
            != (#[trigger] records[j]).file@ || records[i].span.start != records[j].span.start
}

/// The sort key of a violation of `rule` at the start of record `i`.
pub open spec fn key_at(records: Seq<Record>, i: int, rule: ValidationRule) -> (int, int, int) {
    (file_rank(file_order(records), records[i].file@), records[i].span.start as int, rank(rule))
}

/// `v` is located at the start of record `r`, or is a V6 violation.
pub open spec fn placed(v: ViolationView, r: Record) -> bool {
    (v.file == r.file@ && v.offset == r.span.start as int) || v.rule == ValidationRule::UnknownAttribute
}

/// Every violation of `s` is located at the start of `r` and is of `rule`.
pub open spec fn all_at(s: Seq<ViolationView>, r: Record, rule: ValidationRule) -> bool {
    forall|q: int|
        0 <= q < s.len() ==> (#[trigger] s[q]).rule == rule && s[q].file == r.file@ && s[q].offset
            == r.span.start as int
}

/// Every file of the records has its place in the file order.
proof fn lemma_file_order_has(records: Seq<Record>, j: int)
    requires
        0 <= j < records.len(),
    ensures
        file_order(records).contains(records[j].file@),
    decreases records.len(),
{
    let fs = file_order(records.drop_last());
    if j < records.len() - 1 {
        lemma_file_order_has(records.drop_last(), j);
        assert(records.drop_last()[j] == records[j]);
        if !fs.contains(records.last().file@) {
            let q = choose|q: int| 0 <= q < fs.len() && fs[q] == records[j].file@;
            assert(fs.push(records.last().file@)[q] == fs[q]);
        }
    } else if !fs.contains(records.last().file@) {
        assert(fs.push(records.last().file@)[fs.len() as int] == records.last().file@);
    }
}

/// Files in the order with the same rank are the same file.
proof fn lemma_rank_injective(files: Seq<Seq<char>>, f1: Seq<char>, f2: Seq<char>)
    requires
        files.contains(f1),
        files.contains(f2),
        file_rank(files, f1) == file_rank(files, f2),
    ensures
        f1 == f2,
{
    lemma_position(files, f1);
    lemma_position(files, f2);
    let q1 = choose|q: int| 0 <= q < files.len() && files[q] == f1;
    let q2 = choose|q: int| 0 <= q < files.len() && files[q] == f2;
    assert(files[q1] == f1);
    assert(files[q2] == f2);
}

/// The V2 violations of `parts` are of rule V2 at the start of `r`.
proof fn lemma_missing_at(records: Seq<Record>, r: Record, key: Seq<char>, parts: Seq<Seq<char>>)
    ensures
        all_at(missing_targets(records, r, key, parts), r, ValidationRule::UnresolvedTrace),
    decreases parts.len(),
{
    if parts.len() > 0 {
        lemma_missing_at(records, r, key, parts.drop_last());
    }
}

/// The V2 violations of record `r` are of rule V2 at its start.
proof fn lemma_unresolved_at(records: Seq<Record>, r: Record, k: int)
    ensures
        all_at(unresolved_upto(records, r, k), r, ValidationRule::UnresolvedTrace),
    decreases k,
{
    if k > 0 {
        lemma_unresolved_at(records, r, k - 1);
        match lookup(fields_of(r), trace_key(k - 1)) {
            Some(v) => lemma_missing_at(records, r, trace_key(k - 1), split_on(v, ',')),
            None => {},
        }
    }
}

/// The V6 violations of some items are of rule V6.
proof fn lemma_unknown_items_rule(r: Record, line: AttrLine, items: Seq<ItemView>)
    ensures
        forall|q: int|
            0 <= q < unknown_in_items(r, line, items).len() ==> (#[trigger] unknown_in_items(
                r,
                line,
                items,
            )[q]).rule == ValidationRule::UnknownAttribute,
    decreases items.len(),
{
    if items.len() > 0 {
        lemma_unknown_items_rule(r, line, items.drop_last());
    }
}

/// The V6 violations of some lines are of rule V6.
proof fn lemma_unknown_lines_rule(r: Record, lines: Seq<AttrLine>)
    ensures
        forall|q: int|
            0 <= q < unknown_in_lines(r, lines).len() ==> (#[trigger] unknown_in_lines(r, lines)[q]).rule
                == ValidationRule::UnknownAttribute,
    decreases lines.len(),
{
    if lines.len() > 0 {
        lemma_unknown_lines_rule(r, lines.drop_last());
        lemma_unknown_items_rule(r, lines.last(), items_view(lines.last().items@));
        let a = unknown_in_lines(r, lines.drop_last());
        let b = unknown_in_items(r, lines.last(), items_view(lines.last().items@));
        assert forall|q: int| 0 <= q < (a + b).len() implies (#[trigger] (a + b)[q]).rule
            == ValidationRule::UnknownAttribute by {
            if q >= a.len() {
                assert((a + b)[q] == b[q - a.len()]);
            } else {
                assert((a + b)[q] == a[q]);
            }
        }
    }
}

/// Selecting one element by key.
proof fn lemma_with_key_one(files: Seq<Seq<char>>, x: ViolationView, k: (int, int, int))
    ensures
        with_key(files, seq![x], k) == (if vkey(files, x) == k {
            seq![x]
        } else {
            Seq::<ViolationView>::empty()
        }),
{
    assert(seq![x].drop_last() =~= Seq::<ViolationView>::empty());
    assert(seq![x].last() == x);
    assert(with_key(files, Seq::<ViolationView>::empty(), k) == Seq::<ViolationView>::empty());
    assert(with_key(files, seq![x], k) =~= (if vkey(files, x) == k {
        seq![x]
    } else {
        Seq::<ViolationView>::empty()
    }));
}

/// Every element with key `k`: all selected.
proof fn lemma_with_key_all(files: Seq<Seq<char>>, s: Seq<ViolationView>, k: (int, int, int))
    requires
        forall|q: int| 0 <= q < s.len() ==> vkey(files, #[trigger] s[q]) == k,
    ensures
        with_key(files, s, k) == s,
    decreases s.len(),
{
    if s.len() > 0 {
        assert forall|q: int| 0 <= q < s.len() - 1 implies vkey(files, #[trigger] s.drop_last()[q]) == k by {
            assert(s.drop_last()[q] == s[q]);
        }
        lemma_with_key_all(files, s.drop_last(), k);
        assert(vkey(files, s[s.len() - 1]) == k);
        assert(s.drop_last() + seq![s.last()] =~= s);
    }
}

/// The violations of record `j` all sit at its start, but for V6.
proof fn lemma_record_placed(records: Seq<Record>, j: int)
    requires
        0 <= j < records.len(),
    ensures
        forall|q: int|
            0 <= q < record_violations(records, j).len() ==> placed(
                #[trigger] record_violations(records, j)[q],
                records[j],
            ),
{
    let r = records[j];
    let d = if ids_of(records.take(j)).contains(r.id@) {
        seq![at_record(r, ValidationRule::DuplicateId, "duplicate requirement id"@)]
    } else {
        Seq::empty()
    };
    let u = unresolved_upto(records, r, 3);
    let m = if !is_parent(records, r) && lookup(fields_of(r), "verification"@) is None {
        seq![
            at_record(
                r,
                ValidationRule::MissingVerification,
                "leaf requirement has no verification attribute"@,
            ),
        ]
    } else {
        Seq::empty()
    };
    let mo = modality_violations(r);
    let un = unknown_in_lines(r, r.attr_lines@);
    lemma_unresolved_at(records, r, 3);
    lemma_unknown_lines_rule(r, r.attr_lines@);
    let s = d + u + m + mo + un;
    assert(record_violations(records, j) == s);
    assert forall|q: int| 0 <= q < s.len() implies placed(#[trigger] s[q], r) by {
        let n1 = d.len() as int;
        let n2 = n1 + u.len();
        let n3 = n2 + m.len();
        let n4 = n3 + mo.len();
        if q < n1 {
            assert(s[q] == d[q]);
        } else if q < n2 {
            assert(s[q] == u[q - n1]);
        } else if q < n3 {
            assert(s[q] == m[q - n2]);
        } else if q < n4 {
            assert(s[q] == mo[q - n3]);
        } else {
            assert(s[q] == un[q - n4]);
        }
    }
}

/// The violations the rule finds, in record order, for the first `n`
/// records that start at byte `o` of file `f`.
pub open spec fn at_place(records: Seq<Record>, n: int, f: Seq<char>, o: int, rule: ValidationRule) -> Seq<
    ViolationView,
>
    decreases n,
{
    if n <= 0 {
        Seq::empty()
    } else {
        at_place(records, n - 1, f, o, rule) + if records[n - 1].file@ == f && records[n - 1].span.start
            == o {
            rule_part(records, n - 1, rule)
        } else {
            Seq::empty()
        }
    }
}

/// Over the first `n` records, the violations with the key of `rule` at
/// record `i` are those of the records at the same place.
proof fn lemma_raw_key(records: Seq<Record>, n: int, i: int, rule: ValidationRule)
    requires
        0 <= i < records.len(),
        0 <= n <= records.len(),
        rule != ValidationRule::UnknownAttribute,
    ensures
        with_key(file_order(records), raw_violations(records, n), key_at(records, i, rule)) == at_place(
            records,
            n,
            records[i].file@,
            records[i].span.start as int,
            rule,
        ),
    decreases n,
{
    let files = file_order(records);
    let k = key_at(records, i, rule);
    let f = records[i].file@;
    let o = records[i].span.start as int;
    if n > 0 {
        lemma_raw_key(records, n - 1, i, rule);
        let j = n - 1;
        let s = record_violations(records, j);
        lemma_with_key_concat(files, raw_violations(records, n - 1), s, k);
        if records[j].file@ == f && records[j].span.start == o {
            assert(key_at(records, j, rule) == k);
            lemma_record_key(records, j, rule);
        } else {
            lemma_record_placed(records, j);
            assert forall|q: int| 0 <= q < s.len() implies vkey(files, #[trigger] s[q]) != k by {
                assert(placed(s[q], records[j]));
                if vkey(files, s[q]) == k && s[q].rule != ValidationRule::UnknownAttribute {
                    lemma_file_order_has(records, i);
                    lemma_file_order_has(records, j);
                    lemma_rank_injective(files, records[i].file@, records[j].file@);
                }
            }
            lemma_with_key_none(files, s, k);
            assert(with_key(files, raw_violations(records, n - 1), k) + Seq::<ViolationView>::empty()
                =~= with_key(files, raw_violations(records, n - 1), k));
        }
    } else {
        assert(raw_violations(records, 0) == Seq::<ViolationView>::empty());
    }
}

/// With every record at its own place, the records at the place of record
/// `i` are record `i` alone.
proof fn lemma_at_place_distinct(records: Seq<Record>, n: int, i: int, rule: ValidationRule)
    requires
        0 <= i < records.len(),
        0 <= n <= records.len(),
        distinct_places(records),
    ensures
        at_place(records, n, records[i].file@, records[i].span.start as int, rule) == (if i < n {
            rule_part(records, i, rule)
        } else {
            Seq::<ViolationView>::empty()
        }),
    decreases n,
{
    if n > 0 {
        lemma_at_place_distinct(records, n - 1, i, rule);
        let j = n - 1;
        if j != i {
            assert(records[i].file@ != records[j].file@ || records[i].span.start != records[j].span.start);
            assert(at_place(records, n - 1, records[i].file@, records[i].span.start as int, rule)
                + Seq::<ViolationView>::empty() =~= at_place(
                records,
                n - 1,
                records[i].file@,
                records[i].span.start as int,
                rule,
            ));
        } else {
            assert(Seq::<ViolationView>::empty() + rule_part(records, i, rule) =~= rule_part(
                records,
                i,
                rule,
            ));
        }
    }
}

/// What record `r` (number `i` of the records) has under `rule`, in the
/// order the rule finds it.
pub open spec fn rule_part(records: Seq<Record>, i: int, rule: ValidationRule) -> Seq<ViolationView> {
    let r = records[i];
    match rule {
        ValidationRule::DuplicateId => if ids_of(records.take(i)).contains(r.id@) {
            seq![at_record(r, ValidationRule::DuplicateId, "duplicate requirement id"@)]
        } else {
            Seq::empty()
        },
        ValidationRule::UnresolvedTrace => unresolved_upto(records, r, 3),
        ValidationRule::MissingVerification => if !is_parent(records, r) && lookup(
            fields_of(r),
            "verification"@,
        ) is None {
            seq![
                at_record(
                    r,
                    ValidationRule::MissingVerification,
                    "leaf requirement has no verification attribute"@,
                ),
            ]
        } else {
            Seq::empty()
        },
        _ => modality_part(r, rule),
    }
}

/// V4 or V5 of record `r`, as `modality_violations` finds it.
pub open spec fn modality_part(r: Record, rule: ValidationRule) -> Seq<ViolationView> {
    let fields = fields_of(r);
    let stmt = statement_of(r.body_raw@);
    let m = match lookup(fields, "modality"@) {
        Some(v) => v,
        None => Seq::empty(),
    };
    let total = keyword_total(stmt);
    if rule == ValidationRule::ModalityDisagreement {
        if lookup(fields, "kind"@) == Some("quality"@) {
            if has_must_entry(r.body_raw@) {
                Seq::empty()
            } else {
                seq![
                    at_record(
                        r,
                        ValidationRule::ModalityDisagreement,
                        "quality requirement has no Must entry"@,
                    ),
                ]
            }
        } else if total == 0 || keyword_count(stmt, m) == 0 {
            seq![
                at_record(
                    r,
                    ValidationRule::ModalityDisagreement,
                    "prose does not carry modality `"@ + m + "`: \""@ + stmt + "\""@,
                ),
            ]
        } else {
            Seq::empty()
        }
    } else if rule == ValidationRule::CompoundStatement && lookup(fields, "kind"@) != Some(
        "quality"@,
    ) && total > 1 {
        seq![
            at_record(
                r,
                ValidationRule::CompoundStatement,
                "more than one modality keyword in the statement"@,
            ),
        ]
    } else {
        Seq::empty()
    }
}

/// The violations `validate` reports under `rule` at the start of record
/// `i` are those the rule finds for the records starting there, in record
/// order: for record `i` alone when no two records share a place.
proof fn lemma_validate_at(records: Seq<Record>, i: int, rule: ValidationRule)
    requires
        0 <= i < records.len(),
        rule != ValidationRule::UnknownAttribute,
    ensures
        with_key(file_order(records), validated(records), key_at(records, i, rule)) == at_place(
            records,
            records.len() as int,
            records[i].file@,
            records[i].span.start as int,
            rule,
        ),
        distinct_places(records) ==> with_key(
            file_order(records),
            validated(records),
            key_at(records, i, rule),
        ) == rule_part(records, i, rule),
{
    lemma_validate_keeps_ties(records, key_at(records, i, rule));
    lemma_raw_key(records, records.len() as int, i, rule);
    if distinct_places(records) {
        lemma_at_place_distinct(records, records.len() as int, i, rule);
    }
}

/// The violations of record `i` under the key of `rule` at its start are
/// what the rule finds for it.
proof fn lemma_record_key(records: Seq<Record>, i: int, rule: ValidationRule)
    requires
        0 <= i < records.len(),
        rule != ValidationRule::UnknownAttribute,
    ensures
        with_key(file_order(records), record_violations(records, i), key_at(records, i, rule))
            == rule_part(records, i, rule),
{
    let files = file_order(records);
    let k = key_at(records, i, rule);
    let r = records[i];
    let d = if ids_of(records.take(i)).contains(r.id@) {
        seq![at_record(r, ValidationRule::DuplicateId, "duplicate requirement id"@)]
    } else {
        Seq::empty()
    };
    let u = unresolved_upto(records, r, 3);
    let m = if !is_parent(records, r) && lookup(fields_of(r), "verification"@) is None {
        seq![
            at_record(
                r,
                ValidationRule::MissingVerification,
                "leaf requirement has no verification attribute"@,
            ),
        ]
    } else {
        Seq::empty()
    };
    let mo = modality_violations(r);
    let un = unknown_in_lines(r, r.attr_lines@);
    assert(record_violations(records, i) == d + u + m + mo + un);
    lemma_with_key_concat(files, d + u + m + mo, un, k);
    lemma_with_key_concat(files, d + u + m, mo, k);
    lemma_with_key_concat(files, d + u, m, k);
    lemma_with_key_concat(files, d, u, k);
    lemma_unresolved_at(records, r, 3);
    lemma_unknown_lines_rule(r, r.attr_lines@);
    lemma_with_key_none(files, un, k);
    // Each part: selected whole when it is of `rule`, dropped otherwise.
    let sel = |s: Seq<ViolationView>| with_key(files, s, k);
    if d.len() > 0 {
        lemma_with_key_one(files, d[0], k);
        assert(d == seq![d[0]]);
    }
    if m.len() > 0 {
        lemma_with_key_one(files, m[0], k);
        assert(m == seq![m[0]]);
    }
    if rule == ValidationRule::UnresolvedTrace {
        lemma_with_key_all(files, u, k);
    } else {
        assert forall|q: int| 0 <= q < u.len() implies vkey(files, #[trigger] u[q]) != k by {
            assert(u[q].rule == ValidationRule::UnresolvedTrace);
        }
        lemma_with_key_none(files, u, k);
    }
    lemma_modality_key(records, i, rule);
    assert(sel(d) + sel(u) + sel(m) + sel(mo) + sel(un) =~= rule_part(records, i, rule));
}

/// V4 and V5 of record `i` selected by the key of `rule`.
proof fn lemma_modality_key(records: Seq<Record>, i: int, rule: ValidationRule)
    requires
        0 <= i < records.len(),
        rule != ValidationRule::UnknownAttribute,
    ensures
        with_key(file_order(records), modality_violations(records[i]), key_at(records, i, rule))
            == (if rule == ValidationRule::ModalityDisagreement || rule
            == ValidationRule::CompoundStatement {
            modality_part(records[i], rule)
        } else {
            Seq::<ViolationView>::empty()
        }),
{
    let files = file_order(records);
    let k = key_at(records, i, rule);
    let r = records[i];
    let mo = modality_violations(r);
    let fields = fields_of(r);
    let stmt = statement_of(r.body_raw@);
    let e = Seq::<ViolationView>::empty();
    assert(with_key(files, e, k) == e);
    if lookup(fields, "kind"@) == Some("quality"@) {
        if !has_must_entry(r.body_raw@) {
            lemma_with_key_one(files, mo[0], k);
            assert(mo == seq![mo[0]]);
        }
    } else {
        let m = match lookup(fields, "modality"@) {
            Some(v) => v,
            None => Seq::empty(),
        };
        let total = keyword_total(stmt);
        let a = if total == 0 || keyword_count(stmt, m) == 0 {
            seq![
                at_record(
                    r,
                    ValidationRule::ModalityDisagreement,
                    "prose does not carry modality `"@ + m + "`: \""@ + stmt + "\""@,
                ),
            ]
        } else {
            e
        };
        let b = if total > 1 {
            seq![
                at_record(
                    r,
                    ValidationRule::CompoundStatement,
                    "more than one modality keyword in the statement"@,
                ),
            ]
        } else {
            e
        };
        assert(mo == a + b);
        lemma_with_key_concat(files, a, b, k);
        if a.len() > 0 {
            lemma_with_key_one(files, a[0], k);
            assert(a == seq![a[0]]);
        }
        if b.len() > 0 {
            lemma_with_key_one(files, b[0], k);
            assert(b == seq![b[0]]);
        }
        assert(with_key(files, a, k) + with_key(files, b, k) =~= (if rule
            == ValidationRule::ModalityDisagreement || rule == ValidationRule::CompoundStatement {
            modality_part(records[i], rule)
        } else {
            e
        }));
    }
}

} // verus!

verus! {

/// Law: the first record with an id is never reported as a duplicate;
/// every later record with that id is reported once, at its own start.
/// Records that share a start in one file are reported together there, in
/// record order.
pub proof fn lemma_duplicate_ids_flagged(records: Seq<Record>, i: int)
    requires
        0 <= i < records.len(),
    ensures
        with_key(file_order(records), validated(records), key_at(records, i, ValidationRule::DuplicateId))
            == at_place(
            records,
            records.len() as int,
            records[i].file@,
            records[i].span.start as int,
            ValidationRule::DuplicateId,
        ),
        distinct_places(records) ==> with_key(
            file_order(records),
            validated(records),
            key_at(records, i, ValidationRule::DuplicateId),
        ) == (if ids_of(records.take(i)).contains(records[i].id@) {
            seq![at_record(records[i], ValidationRule::DuplicateId, "duplicate requirement id"@)]
        } else {
            Seq::<ViolationView>::empty()
        }),
{
    lemma_validate_at(records, i, ValidationRule::DuplicateId);
}

/// Law: a record is reported for unresolved traces once for each target,
/// under each trace key in turn, that names no record of the set, and for
/// nothing else; a trace to its own id resolves. Records that share a
/// start in one file are reported together there, in record order.
pub proof fn lemma_unresolved_traces_flagged(records: Seq<Record>, i: int)
    requires
        0 <= i < records.len(),
    ensures
        with_key(
            file_order(records),
            validated(records),
            key_at(records, i, ValidationRule::UnresolvedTrace),
        ) == at_place(
            records,
            records.len() as int,
            records[i].file@,
            records[i].span.start as int,
            ValidationRule::UnresolvedTrace,
        ),
        distinct_places(records) ==> with_key(
            file_order(records),
            validated(records),
            key_at(records, i, ValidationRule::UnresolvedTrace),
        ) == unresolved_upto(records, records[i], 3),
        ids_of(records).contains(records[i].id@),
{
    lemma_validate_at(records, i, ValidationRule::UnresolvedTrace);
    assert(ids_of(records)[i] == records[i].id@);
}

/// Law: a record is reported for a missing verification attribute exactly
/// when it has none and no record with another id traces to it. Records
/// that share a start in one file are reported together there.
pub proof fn lemma_leaves_need_verification(records: Seq<Record>, i: int)
    requires
        0 <= i < records.len(),
    ensures
        with_key(
            file_order(records),
            validated(records),
            key_at(records, i, ValidationRule::MissingVerification),
        ) == at_place(
            records,
            records.len() as int,
            records[i].file@,
            records[i].span.start as int,
            ValidationRule::MissingVerification,
        ),
        distinct_places(records) ==> with_key(
            file_order(records),
            validated(records),
            key_at(records, i, ValidationRule::MissingVerification),
        ) == (if !is_parent(records, records[i]) && lookup(fields_of(records[i]), "verification"@)
            is None {
            seq![
                at_record(
                    records[i],
                    ValidationRule::MissingVerification,
                    "leaf requirement has no verification attribute"@,
                ),
            ]
        } else {
            Seq::<ViolationView>::empty()
        }),
{
    lemma_validate_at(records, i, ValidationRule::MissingVerification);
}

/// Law: a record that is not a quality requirement is reported for its
/// modality exactly when its statement holds no modality keyword or not
/// its own modality, and as a compound statement exactly when it holds more
/// than one; a quality requirement is reported for its modality exactly
/// when its body has no `Must::` entry, and never as compound. Records that
/// share a start in one file are reported together there.
pub proof fn lemma_modality_flagged(records: Seq<Record>, i: int)
    requires
        0 <= i < records.len(),
    ensures
        with_key(
            file_order(records),
            validated(records),
            key_at(records, i, ValidationRule::ModalityDisagreement),
        ) == at_place(
            records,
            records.len() as int,
            records[i].file@,
            records[i].span.start as int,
            ValidationRule::ModalityDisagreement,
        ),
        with_key(
            file_order(records),
            validated(records),
            key_at(records, i, ValidationRule::CompoundStatement),
        ) == at_place(
            records,
            records.len() as int,
            records[i].file@,
            records[i].span.start as int,
            ValidationRule::CompoundStatement,
        ),
        distinct_places(records) ==> with_key(
            file_order(records),
            validated(records),
            key_at(records, i, ValidationRule::ModalityDisagreement),
        ) == modality_part(records[i], ValidationRule::ModalityDisagreement),
        distinct_places(records) ==> with_key(
            file_order(records),
            validated(records),
            key_at(records, i, ValidationRule::CompoundStatement),
        ) == modality_part(records[i], ValidationRule::CompoundStatement),
{
    lemma_validate_at(records, i, ValidationRule::ModalityDisagreement);
    lemma_validate_at(records, i, ValidationRule::CompoundStatement);
}

} // verus!

verus! {

/// No violation of `s` carries a line number.
pub open spec fn no_lines(s: Seq<ViolationView>) -> bool {
    forall|q: int| 0 <= q < s.len() ==> (#[trigger] s[q]).line is None
}

proof fn lemma_no_lines_concat(a: Seq<ViolationView>, b: Seq<ViolationView>)
    requires
        no_lines(a),
        no_lines(b),
    ensures
        no_lines(a + b),
{
    assert forall|q: int| 0 <= q < (a + b).len() implies (#[trigger] (a + b)[q]).line is None by {
        if q < a.len() {
            assert((a + b)[q] == a[q]);
        } else {
            assert((a + b)[q] == b[q - a.len()]);
        }
    }
}

proof fn lemma_missing_no_lines(records: Seq<Record>, r: Record, key: Seq<char>, parts: Seq<Seq<char>>)
    ensures
        no_lines(missing_targets(records, r, key, parts)),
    decreases parts.len(),
{
    if parts.len() > 0 {
        lemma_missing_no_lines(records, r, key, parts.drop_last());
        let t = trim(parts.last());
        let tail = if ids_of(records).contains(t) {
            Seq::<ViolationView>::empty()
        } else {
            seq![at_record(r, ValidationRule::UnresolvedTrace, key + " target `"@ + t + "` not found"@)]
        };
        lemma_no_lines_concat(missing_targets(records, r, key, parts.drop_last()), tail);
    }
}

proof fn lemma_unresolved_no_lines(records: Seq<Record>, r: Record, k: int)
    ensures
        no_lines(unresolved_upto(records, r, k)),
    decreases k,
{
    if k > 0 {
        lemma_unresolved_no_lines(records, r, k - 1);
        let tail = match lookup(fields_of(r), trace_key(k - 1)) {
            Some(v) => missing_targets(records, r, trace_key(k - 1), split_on(v, ',')),
            None => Seq::empty(),
        };
        match lookup(fields_of(r), trace_key(k - 1)) {
            Some(v) => lemma_missing_no_lines(records, r, trace_key(k - 1), split_on(v, ',')),
            None => {},
        }
        lemma_no_lines_concat(unresolved_upto(records, r, k - 1), tail);
    }
}

proof fn lemma_unknown_items_no_lines(r: Record, line: AttrLine, items: Seq<ItemView>)
    ensures
        no_lines(unknown_in_items(r, line, items)),
    decreases items.len(),
{
    if items.len() > 0 {
        lemma_unknown_items_no_lines(r, line, items.drop_last());
        let tail = match items.last() {
            ItemView::Kv { name, value } => if known_key(name) {
                Seq::<ViolationView>::empty()
            } else {
                seq![
                    ViolationView {
                        rule: ValidationRule::UnknownAttribute,
                        file: r.file@,
                        id: r.id@,
                        message: "unknown attribute `"@ + name + "`"@,
                        offset: line.start as int,
                        line: None,
                    },
                ]
            },
            _ => Seq::empty(),
        };
        lemma_no_lines_concat(unknown_in_items(r, line, items.drop_last()), tail);
    }
}

proof fn lemma_unknown_lines_no_lines(r: Record, lines: Seq<AttrLine>)
    ensures
        no_lines(unknown_in_lines(r, lines)),
    decreases lines.len(),
{
    if lines.len() > 0 {
        lemma_unknown_lines_no_lines(r, lines.drop_last());
        lemma_unknown_items_no_lines(r, lines.last(), items_view(lines.last().items@));
        lemma_no_lines_concat(
            unknown_in_lines(r, lines.drop_last()),
            unknown_in_items(r, lines.last(), items_view(lines.last().items@)),
        );
    }
}

proof fn lemma_raw_no_lines(records: Seq<Record>, n: int)
    requires
        n <= records.len(),
    ensures
        no_lines(raw_violations(records, n)),
    decreases n,
{
    if n > 0 {
        lemma_raw_no_lines(records, n - 1);
        let j = n - 1;
        let r = records[j];
        let d = if ids_of(records.take(j)).contains(r.id@) {
            seq![at_record(r, ValidationRule::DuplicateId, "duplicate requirement id"@)]
        } else {
            Seq::empty()
        };
        let u = unresolved_upto(records, r, 3);
        let m = if !is_parent(records, r) && lookup(fields_of(r), "verification"@) is None {
            seq![
                at_record(
                    r,
                    ValidationRule::MissingVerification,
                    "leaf requirement has no verification attribute"@,
                ),
            ]
        } else {
            Seq::empty()
        };
        let mo = modality_violations(r);
        let un = unknown_in_lines(r, r.attr_lines@);
        lemma_unresolved_no_lines(records, r, 3);
        lemma_unknown_lines_no_lines(r, r.attr_lines@);
        assert(no_lines(mo));
        lemma_no_lines_concat(d, u);
        lemma_no_lines_concat(d + u, m);
        lemma_no_lines_concat(d + u + m, mo);
        lemma_no_lines_concat(d + u + m + mo, un);
        assert(record_violations(records, j) == d + u + m + mo + un);
        lemma_no_lines_concat(raw_violations(records, n - 1), record_violations(records, j));
    }
}

proof fn lemma_sort_no_lines(files: Seq<Seq<char>>, s: Seq<ViolationView>)
    requires
        no_lines(s),
    ensures
        no_lines(sort_violations(files, s)),
    decreases s.len(),
{
    if s.len() > 0 {
        assert forall|q: int| 0 <= q < s.drop_last().len() implies (#[trigger] s.drop_last()[q]).line
            is None by {
            assert(s.drop_last()[q] == s[q]);
        }
        lemma_sort_no_lines(files, s.drop_last());
        let t = sort_violations(files, s.drop_last());
        let x = s.last();
        lemma_sort_violations(files, s.drop_last());
        lemma_insert_pos(files, t, x);
        let p = insert_pos(files, t, x);
        assert(x.line is None);
        assert forall|q: int| 0 <= q < t.insert(p, x).len() implies (#[trigger] t.insert(p, x)[q]).line
            is None by {
            if q < p {
                assert(t.insert(p, x)[q] == t[q]);
            } else if q > p {
                assert(t.insert(p, x)[q] == t[q - 1]);
            }
        }
    }
}

/// Law: `validate` reports no line numbers; every violation it returns
/// carries `None` and is located by its byte offset alone.
pub proof fn lemma_validate_has_no_lines(records: Seq<Record>)
    ensures
        forall|q: int| 0 <= q < validated(records).len() ==> (#[trigger] validated(records)[q]).line is None,
{
    lemma_raw_no_lines(records, records.len() as int);
    lemma_sort_no_lines(file_order(records), raw_violations(records, records.len() as int));
}

} // verus!

verus! {

/// The V6 violations of the lines among `lines` that start at byte `off`,
/// in line order.
pub open spec fn unknown_at_line(r: Record, lines: Seq<AttrLine>, off: int) -> Seq<ViolationView>
    decreases lines.len(),
{
    if lines.len() == 0 {
        Seq::empty()
    } else {
        unknown_at_line(r, lines.drop_last(), off) + if lines.last().start == off {
            unknown_in_items(r, lines.last(), items_view(lines.last().items@))
        } else {
            Seq::empty()
        }
    }
}

/// The V6 violations of the attribute lines of the first `n` records of
/// file `f` that start at byte `off`, in record order.
pub open spec fn unknown_place(records: Seq<Record>, n: int, f: Seq<char>, off: int) -> Seq<ViolationView>
    decreases n,
{
    if n <= 0 {
        Seq::empty()
    } else {
        unknown_place(records, n - 1, f, off) + if records[n - 1].file@ == f {
            unknown_at_line(records[n - 1], records[n - 1].attr_lines@, off)
        } else {
            Seq::empty()
        }
    }
}

/// The V6 violations of one line sit at its start, in `r`'s file.
proof fn lemma_unknown_items_at(r: Record, line: AttrLine, items: Seq<ItemView>)
    ensures
        forall|q: int|
            0 <= q < unknown_in_items(r, line, items).len() ==> {
                let v = #[trigger] unknown_in_items(r, line, items)[q];
                v.rule == ValidationRule::UnknownAttribute && v.file == r.file@ && v.offset == line.start
            },
    decreases items.len(),
{
    if items.len() > 0 {
        lemma_unknown_items_at(r, line, items.drop_last());
    }
}

/// Selecting the V6 key of a line place from a record's V6 violations.
proof fn lemma_unknown_lines_key(
    files: Seq<Seq<char>>,
    r: Record,
    lines: Seq<AttrLine>,
    f: Seq<char>,
    off: int,
)
    requires
        files.contains(r.file@),
        files.contains(f),
    ensures
        with_key(files, unknown_in_lines(r, lines), (file_rank(files, f), off, 6)) == (if r.file@ == f {
            unknown_at_line(r, lines, off)
        } else {
            Seq::<ViolationView>::empty()
        }),
    decreases lines.len(),
{
    let k = (file_rank(files, f), off, 6int);
    if lines.len() > 0 {
        lemma_unknown_lines_key(files, r, lines.drop_last(), f, off);
        let l = lines.last();
        let s = unknown_in_items(r, l, items_view(l.items@));
        lemma_with_key_concat(files, unknown_in_lines(r, lines.drop_last()), s, k);
        lemma_unknown_items_at(r, l, items_view(l.items@));
        if r.file@ == f && l.start == off {
            lemma_with_key_all(files, s, k);
        } else {
            assert forall|q: int| 0 <= q < s.len() implies vkey(files, #[trigger] s[q]) != k by {
                if vkey(files, s[q]) == k {
                    lemma_rank_injective(files, r.file@, f);
                }
            }
            lemma_with_key_none(files, s, k);
        }
        let e = Seq::<ViolationView>::empty();
        assert(e + e =~= e);
        assert(with_key(files, unknown_in_lines(r, lines), k) =~= (if r.file@ == f {
            unknown_at_line(r, lines, off)
        } else {
            e
        }));
    } else {
        assert(with_key(files, Seq::<ViolationView>::empty(), k) == Seq::<ViolationView>::empty());
    }
}

/// Over the first `n` records, the violations with the V6 key of a line
/// place are the V6 violations of the lines there.
proof fn lemma_raw_unknown(records: Seq<Record>, n: int, f: Seq<char>, off: int)
    requires
        0 <= n <= records.len(),
        file_order(records).contains(f),
    ensures
        with_key(
            file_order(records),
            raw_violations(records, n),
            (file_rank(file_order(records), f), off, 6),
        ) == unknown_place(records, n, f, off),
    decreases n,
{
    let files = file_order(records);
    let k = (file_rank(files, f), off, 6int);
    if n > 0 {
        lemma_raw_unknown(records, n - 1, f, off);
        let j = n - 1;
        let r = records[j];
        let d = if ids_of(records.take(j)).contains(r.id@) {
            seq![at_record(r, ValidationRule::DuplicateId, "duplicate requirement id"@)]
        } else {
            Seq::empty()
        };
        let u = unresolved_upto(records, r, 3);
        let m = if !is_parent(records, r) && lookup(fields_of(r), "verification"@) is None {
            seq![
                at_record(
                    r,
                    ValidationRule::MissingVerification,
                    "leaf requirement has no verification attribute"@,
                ),
            ]
        } else {
            Seq::empty()
        };
        let mo = modality_violations(r);
        let un = unknown_in_lines(r, r.attr_lines@);
        let front = d + u + m + mo;
        assert(record_violations(records, j) == front + un);
        lemma_unresolved_at(records, r, 3);
        assert forall|q: int| 0 <= q < front.len() implies vkey(files, #[trigger] front[q]) != k by {
            let n1 = d.len() as int;
            let n2 = n1 + u.len();
            let n3 = n2 + m.len();
            if q < n1 {
                assert(front[q] == d[q]);
            } else if q < n2 {
                assert(front[q] == u[q - n1]);
            } else if q < n3 {
                assert(front[q] == m[q - n2]);
            } else {
                assert(front[q] == mo[q - n3]);
            }
        }
        lemma_with_key_none(files, front, k);
        lemma_with_key_concat(files, front, un, k);
        lemma_file_order_has(records, j);
        lemma_unknown_lines_key(files, r, r.attr_lines@, f, off);
        lemma_with_key_concat(files, raw_violations(records, n - 1), record_violations(records, j), k);
        assert(Seq::<ViolationView>::empty() + with_key(files, un, k) =~= with_key(files, un, k));
    } else {
        assert(raw_violations(records, 0) == Seq::<ViolationView>::empty());
    }
}

/// Law: `validate` reports, at the start of an attribute line `m` of record
/// `i`, one V6 violation for each named attribute outside the vocabulary
/// on the lines of the file that start there, in record, line and item
/// order, each naming the attribute in its message; so for one line alone
/// at that place, exactly its unknown attributes, in order.
pub proof fn lemma_unknown_attributes_flagged(records: Seq<Record>, i: int, m: int)
    requires
        0 <= i < records.len(),
        0 <= m < records[i].attr_lines@.len(),
    ensures
        with_key(
            file_order(records),
            validated(records),
            (
                file_rank(file_order(records), records[i].file@),
                records[i].attr_lines@[m].start as int,
                rank(ValidationRule::UnknownAttribute),
            ),
        ) == unknown_place(
            records,
            records.len() as int,
            records[i].file@,
            records[i].attr_lines@[m].start as int,
        ),
{
    let k = (
        file_rank(file_order(records), records[i].file@),
        records[i].attr_lines@[m].start as int,
        6int,
    );
    lemma_validate_keeps_ties(records, k);
    lemma_file_order_has(records, i);
    lemma_raw_unknown(records, records.len() as int, records[i].file@, records[i].attr_lines@[m].start as int);
}

} // verus!

verus! {

/// The trace-link attribute names, in the order the rules check them:
/// `refines`, `derives-from`, `satisfies`.
pub open spec fn trace_name(k: int) -> Seq<char> {
    if k == 0 {
        "refines"@
    } else if k == 1 {
        "derives-from"@
    } else {
        "satisfies"@
    }
}

/// Target `q` of trace key `k` of record `r`, trimmed, when it names no
/// record of the set.
pub open spec fn unresolved_target(records: Seq<Record>, r: Record, k: int, q: int) -> Option<Seq<char>> {
    match lookup(fields_of(r), trace_name(k)) {
        Some(val) => if 0 <= q < split_on(val, ',').len() && !ids_of(records).contains(
            trim(split_on(val, ',')[q]),
        ) {
            Some(trim(split_on(val, ',')[q]))
        } else {
            None
        },
        None => None,
    }
}

/// The V2 violation for target `t` of trace key `key` of record `r`.
pub open spec fn v2_at(r: Record, key: Seq<char>, t: Seq<char>) -> ViolationView {
    ViolationView {
        rule: ValidationRule::UnresolvedTrace,
        file: r.file@,
        id: r.id@,
        message: key + " target `"@ + t + "` not found"@,
        offset: r.span.start as int,
        line: None,
    }
}

/// `v` is the V2 violation for target `q` of trace key `k` of `r`, which
/// names no record.
pub open spec fn reports_target(records: Seq<Record>, r: Record, k: int, q: int, v: ViolationView) -> bool {
    &&& unresolved_target(records, r, k, q) is Some
    &&& v == v2_at(r, trace_name(k), unresolved_target(records, r, k, q)->Some_0)
}

proof fn lemma_missing_member(records: Seq<Record>, r: Record, key: Seq<char>, parts: Seq<Seq<char>>, v: ViolationView)
    ensures
        missing_targets(records, r, key, parts).contains(v) <==> exists|q: int|
            0 <= q < parts.len() && !ids_of(records).contains(trim(parts[q])) && v == v2_at(
                r,
                key,
                #[trigger] trim(parts[q]),
            ),
    decreases parts.len(),
{
    if parts.len() > 0 {
        lemma_missing_member(records, r, key, parts.drop_last(), v);
        let t = trim(parts.last());
        let tail = if ids_of(records).contains(t) {
            Seq::<ViolationView>::empty()
        } else {
            seq![at_record(r, ValidationRule::UnresolvedTrace, key + " target `"@ + t + "` not found"@)]
        };
        crate::extract::lemma_contains_concat(missing_targets(records, r, key, parts.drop_last()), tail, v);
        let n = parts.len() - 1;
        if exists|q: int|
            0 <= q < parts.len() && !ids_of(records).contains(trim(parts[q])) && v == v2_at(
                r,
                key,
                #[trigger] trim(parts[q]),
            ) {
            let q = choose|q: int|
                0 <= q < parts.len() && !ids_of(records).contains(trim(parts[q])) && v == v2_at(
                    r,
                    key,
                    #[trigger] trim(parts[q]),
                );
            if q < n {
                assert(parts.drop_last()[q] == parts[q]);
            } else {
                assert(tail[0] == v);
            }
        }
        if missing_targets(records, r, key, parts.drop_last()).contains(v) {
            let q = choose|q: int|
                0 <= q < parts.drop_last().len() && !ids_of(records).contains(trim(parts.drop_last()[q]))
                    && v == v2_at(r, key, #[trigger] trim(parts.drop_last()[q]));
            assert(parts.drop_last()[q] == parts[q]);
        }
        if tail.contains(v) {
            assert(trim(parts[n]) == t);
        }
    }
}

proof fn lemma_unresolved_member(records: Seq<Record>, r: Record, kk: int, v: ViolationView)
    requires
        0 <= kk <= 3,
    ensures
        unresolved_upto(records, r, kk).contains(v) <==> exists|k: int, q: int|
            0 <= k < kk && #[trigger] reports_target(records, r, k, q, v),
    decreases kk,
{
    if kk > 0 {
        lemma_unresolved_member(records, r, kk - 1, v);
        let k1 = kk - 1;
        assert(trace_name(k1) == trace_key(k1));
        let tail = match lookup(fields_of(r), trace_key(k1)) {
            Some(val) => missing_targets(records, r, trace_key(k1), split_on(val, ',')),
            None => Seq::empty(),
        };
        crate::extract::lemma_contains_concat(unresolved_upto(records, r, k1), tail, v);
        match lookup(fields_of(r), trace_key(k1)) {
            Some(val) => {
                lemma_missing_member(records, r, trace_key(k1), split_on(val, ','), v);
                if tail.contains(v) {
                    let q = choose|q: int|
                        0 <= q < split_on(val, ',').len() && !ids_of(records).contains(
                            trim(split_on(val, ',')[q]),
                        ) && v == v2_at(r, trace_key(k1), #[trigger] trim(split_on(val, ',')[q]));
                    assert(unresolved_target(records, r, k1, q) == Some(trim(split_on(val, ',')[q])));
                    assert(reports_target(records, r, k1, q, v));
                }
                if unresolved_upto(records, r, k1).contains(v) {
                    let (k, q) = choose|k: int, q: int| 0 <= k < k1 && #[trigger] reports_target(records, r, k, q, v);
                    assert(reports_target(records, r, k, q, v));
                }
                if exists|k: int, q: int|
                    0 <= k < kk && #[trigger] reports_target(records, r, k, q, v) {
                    let (k, q) = choose|k: int, q: int|
                        0 <= k < kk && #[trigger] reports_target(records, r, k, q, v);
                    if k == k1 {
                        assert(0 <= q < split_on(val, ',').len() && !ids_of(records).contains(
                            trim(split_on(val, ',')[q]),
                        ) && v == v2_at(r, trace_key(k1), trim(split_on(val, ',')[q])));
                    }
                }
            },
            None => {
                if unresolved_upto(records, r, k1).contains(v) {
                    let (k, q) = choose|k: int, q: int| 0 <= k < k1 && #[trigger] reports_target(records, r, k, q, v);
                    assert(reports_target(records, r, k, q, v));
                }
                if exists|k: int, q: int|
                    0 <= k < kk && #[trigger] reports_target(records, r, k, q, v) {
                    let (k, q) = choose|k: int, q: int|
                        0 <= k < kk && #[trigger] reports_target(records, r, k, q, v);
                    assert(k != k1);
                }
                assert(!tail.contains(v));
            },
        }
    }
}

proof fn lemma_raw_member(records: Seq<Record>, n: int, v: ViolationView)
    requires
        0 <= n <= records.len(),
    ensures
        raw_violations(records, n).contains(v) <==> exists|j: int|
            0 <= j < n && #[trigger] record_violations(records, j).contains(v),
    decreases n,
{
    if n > 0 {
        lemma_raw_member(records, n - 1, v);
        crate::extract::lemma_contains_concat(raw_violations(records, n - 1), record_violations(records, n - 1), v);
    } else {
        assert(raw_violations(records, 0) =~= Seq::<ViolationView>::empty());
    }
}

/// A V2 violation of record `j` is one of its unresolved targets, and
/// every unresolved target is a violation of record `j`.
proof fn lemma_record_v2_member(records: Seq<Record>, j: int, v: ViolationView)
    requires
        0 <= j < records.len(),
    ensures
        (record_violations(records, j).contains(v) && v.rule == ValidationRule::UnresolvedTrace)
            <==> unresolved_upto(records, records[j], 3).contains(v),
{
    let r = records[j];
    let d = if ids_of(records.take(j)).contains(r.id@) {
        seq![at_record(r, ValidationRule::DuplicateId, "duplicate requirement id"@)]
    } else {
        Seq::empty()
    };
    let u = unresolved_upto(records, r, 3);
    let m = if !is_parent(records, r) && lookup(fields_of(r), "verification"@) is None {
        seq![
            at_record(
                r,
                ValidationRule::MissingVerification,
                "leaf requirement has no verification attribute"@,
            ),
        ]
    } else {
        Seq::empty()
    };
    let mo = modality_violations(r);
    let un = unknown_in_lines(r, r.attr_lines@);
    assert(record_violations(records, j) == d + u + m + mo + un);
    crate::extract::lemma_contains_concat(d + u + m + mo, un, v);
    crate::extract::lemma_contains_concat(d + u + m, mo, v);
    crate::extract::lemma_contains_concat(d + u, m, v);
    crate::extract::lemma_contains_concat(d, u, v);
    lemma_unresolved_at(records, r, 3);
    lemma_unknown_lines_rule(r, r.attr_lines@);
    if un.contains(v) {
        let q = choose|q: int| 0 <= q < un.len() && un[q] == v;
        assert(un[q].rule == ValidationRule::UnknownAttribute);
    }
    if u.contains(v) {
        let q = choose|q: int| 0 <= q < u.len() && u[q] == v;
        assert(u[q].rule == ValidationRule::UnresolvedTrace);
    }
    if mo.contains(v) {
        let q = choose|q: int| 0 <= q < mo.len() && mo[q] == v;
        assert(mo[q].rule == ValidationRule::ModalityDisagreement || mo[q].rule
            == ValidationRule::CompoundStatement);
    }
}

/// `validate` reports exactly the violations the rules find.
proof fn lemma_validated_member(records: Seq<Record>, v: ViolationView)
    ensures
        validated(records).contains(v) <==> raw_violations(records, records.len() as int).contains(v),
{
    lemma_validate_order(records);
    vstd::seq_lib::to_multiset_contains(validated(records), v);
    vstd::seq_lib::to_multiset_contains(raw_violations(records, records.len() as int), v);
}

/// Law: an unresolved-trace violation names a trace target that no record
/// of the set carries, once trimmed; a comma-separated target whose trimmed
/// text is the id of some record is never reported. Conversely every target
/// of a `refines`, `derives-from` or `satisfies` value whose trimmed text
/// names no record is reported, at its record, under its key.
pub proof fn lemma_unresolved_means_unknown_target(records: Seq<Record>)
    ensures
        forall|v: ViolationView|
            #[trigger] validated(records).contains(v) && v.rule == ValidationRule::UnresolvedTrace
                ==> exists|k: int, t: Seq<char>|
                0 <= k < 3 && v.message == #[trigger] (trace_name(k) + " target `"@ + t + "` not found"@)
                    && !ids_of(records).contains(t),
        forall|j: int, k: int, q: int|
            0 <= j < records.len() && 0 <= k < 3 && (#[trigger] unresolved_target(
                records,
                records[j],
                k,
                q,
            )) is Some ==> validated(records).contains(
                v2_at(records[j], trace_name(k), unresolved_target(records, records[j], k, q)->Some_0),
            ),
{
    assert forall|v: ViolationView|
        #[trigger] validated(records).contains(v) && v.rule == ValidationRule::UnresolvedTrace implies exists|
        k: int,
        t: Seq<char>,
    |
        0 <= k < 3 && v.message == #[trigger] (trace_name(k) + " target `"@ + t + "` not found"@)
            && !ids_of(records).contains(t) by {
        lemma_validated_member(records, v);
        lemma_raw_member(records, records.len() as int, v);
        let j = choose|j: int| 0 <= j < records.len() && #[trigger] record_violations(records, j).contains(v);
        lemma_record_v2_member(records, j, v);
        lemma_unresolved_member(records, records[j], 3, v);
        let (k, q) = choose|k: int, q: int|
            0 <= k < 3 && #[trigger] reports_target(records, records[j], k, q, v);
        let t = unresolved_target(records, records[j], k, q)->Some_0;
        assert(v.message == trace_name(k) + " target `"@ + t + "` not found"@);
    }
    assert forall|j: int, k: int, q: int|
        0 <= j < records.len() && 0 <= k < 3 && (#[trigger] unresolved_target(
            records,
            records[j],
            k,
            q,
        )) is Some implies validated(records).contains(
        v2_at(records[j], trace_name(k), unresolved_target(records, records[j], k, q)->Some_0),
    ) by {
        let t = unresolved_target(records, records[j], k, q)->Some_0;
        let v = v2_at(records[j], trace_name(k), t);
        lemma_unresolved_member(records, records[j], 3, v);
        assert(reports_target(records, records[j], k, q, v));
        assert(unresolved_upto(records, records[j], 3).contains(v));
        lemma_record_v2_member(records, j, v);
        assert(record_violations(records, j).contains(v));
        lemma_raw_member(records, records.len() as int, v);
        lemma_validated_member(records, v);
    }
}

} // verus!
