//! The attribute-line grammar: splitting `[...]` lines into items, quoting
//! and escaping values, and rendering items back into a line.
//!
//! Inside a double-quoted value a backslash escapes the next character, so
//! `\"` and `\\` stand for `"` and `\`. Outside quotes a backslash is an
//! ordinary character. A comma outside quotes separates items.
use vstd::prelude::*;
use vstd::string::StringSliceAdditionalSpecFns;

use crate::text::{
    chars_of, is_whitespace, is_ws, lemma_trim_fixed, lemma_trim_space, no_line_break, push_char,
    push_str, str_to_string, string_of_range, substr, boundaries, trim, trim_bounds,
};
use crate::{items_view, AttrLine, Error, Item, ItemView};

verus! {

// ---------------------------------------------------------------------------
// Splitting at top-level commas
// ---------------------------------------------------------------------------

/// The splitter's state after a prefix: finished parts, the part being
/// built, whether the scan is inside quotes, and whether the previous
/// character was an escaping backslash inside quotes.
pub type SplitState = (Seq<Seq<char>>, Seq<char>, bool, bool);

pub open spec fn split_init() -> SplitState {
    (Seq::empty(), Seq::empty(), false, false)
}

/// One character of the top-level comma split.
pub open spec fn split_step(st: SplitState, c: char) -> SplitState {
    let (parts, cur, in_q, esc) = st;
    if esc {
        (parts, cur.push(c), in_q, false)
    } else if c == '\\' && in_q {
        (parts, cur.push(c), in_q, true)
    } else if c == '"' {
        (parts, cur.push(c), !in_q, false)
    } else if c == ',' && !in_q {
        (parts.push(cur), Seq::empty(), in_q, false)
    } else {
        (parts, cur.push(c), in_q, false)
    }
}

/// The state after scanning `s` from state `st`.
pub open spec fn split_from(st: SplitState, s: Seq<char>) -> SplitState
    decreases s.len(),
{
    if s.len() == 0 {
        st
    } else {
        split_step(split_from(st, s.drop_last()), s.last())
    }
}

/// `s` split at every comma that is outside double quotes; quotes and
/// backslashes stay in the parts.
pub open spec fn split_top_level(s: Seq<char>) -> Seq<Seq<char>> {
    let st = split_from(split_init(), s);
    st.0.push(st.1)
}

// ---------------------------------------------------------------------------
// Items
// ---------------------------------------------------------------------------

/// Index of the first `c` in `p`, or `-1`.
pub open spec fn find(p: Seq<char>, c: char) -> int
    decreases p.len(),
{
    if p.len() == 0 {
        -1
    } else if p[0] == c {
        0
    } else {
        let r = find(p.drop_first(), c);
        if r < 0 {
            -1
        } else {
            r + 1
        }
    }
}

/// `s` with the escapes `\"` and `\\` decoded; any other backslash stays.
pub open spec fn unescape(s: Seq<char>) -> Seq<char>
    decreases s.len(),
{
    if s.len() == 0 {
        Seq::empty()
    } else if s[0] == '\\' && s.len() >= 2 && (s[1] == '"' || s[1] == '\\') {
        seq![s[1]] + unescape(s.subrange(2, s.len() as int))
    } else {
        seq![s[0]] + unescape(s.drop_first())
    }
}

/// A value wrapped in double quotes loses them and has its escapes decoded;
/// anything else, an unterminated quote included, is taken literally.
pub open spec fn unquote(v: Seq<char>) -> Seq<char> {
    if v.len() >= 2 && v[0] == '"' && v.last() == '"' {
        unescape(v.subrange(1, v.len() - 1))
    } else {
        v
    }
}

/// Index of the first `#` of `p` from `i` on that stands outside double
/// quotes, scanning as the comma split does (inside quotes a backslash
/// escapes the next character), or `-1`.
pub open spec fn hash_from(p: Seq<char>, i: int, in_q: bool, esc: bool) -> int
    decreases p.len() - i,
{
    if i < 0 || i >= p.len() {
        -1
    } else if esc {
        hash_from(p, i + 1, in_q, false)
    } else if p[i] == '\\' && in_q {
        hash_from(p, i + 1, in_q, true)
    } else if p[i] == '"' {
        hash_from(p, i + 1, !in_q, false)
    } else if p[i] == '#' && !in_q {
        i
    } else {
        hash_from(p, i + 1, in_q, false)
    }
}

/// Index of the first `#` of `p` outside double quotes, or `-1`.
pub open spec fn unquoted_hash(p: Seq<char>) -> int {
    hash_from(p, 0, false, false)
}

/// The items one trimmed, nonempty part stands for.
///
/// `#id` is an id; `style#id`, split at the first `#` outside double
/// quotes, is a style and an id; otherwise `name=value` is a named
/// attribute; anything else is a style.
pub open spec fn classify(p: Seq<char>) -> Seq<ItemView> {
    if p.len() > 0 && p[0] == '#' {
        seq![ItemView::Id(p.drop_first())]
    } else {
        let h = unquoted_hash(p);
        let e = find(p, '=');
        if h >= 0 {
            seq![ItemView::Style(p.take(h)), ItemView::Id(p.subrange(h + 1, p.len() as int))]
        } else if e >= 0 {
            seq![
                ItemView::Kv {
                    name: trim(p.take(e)),
                    value: unquote(trim(p.subrange(e + 1, p.len() as int))),
                },
            ]
        } else {
            seq![ItemView::Style(p)]
        }
    }
}

/// The items of a list of parts; parts that are blank after trimming add
/// nothing.
pub open spec fn parse_parts(parts: Seq<Seq<char>>) -> Seq<ItemView>
    decreases parts.len(),
{
    if parts.len() == 0 {
        Seq::empty()
    } else {
        let p = trim(parts[0]);
        (if p.len() == 0 {
            Seq::<ItemView>::empty()
        } else {
            classify(p)
        }) + parse_parts(parts.drop_first())
    }
}

/// `s` without its leading `[` characters.
pub open spec fn strip_open(s: Seq<char>) -> Seq<char>
    decreases s.len(),
{
    if s.len() > 0 && s[0] == '[' {
        strip_open(s.drop_first())
    } else {
        s
    }
}

/// `s` without its trailing `]` characters.
pub open spec fn strip_close(s: Seq<char>) -> Seq<char>
    decreases s.len(),
{
    if s.len() > 0 && s.last() == ']' {
        strip_close(s.drop_last())
    } else {
        s
    }
}

/// The items of an attribute line.
pub open spec fn parse_items(line: Seq<char>) -> Seq<ItemView> {
    parse_parts(split_top_level(strip_close(strip_open(trim(line)))))
}

// ---------------------------------------------------------------------------
// Rendering
// ---------------------------------------------------------------------------

/// Characters that may stand unquoted in a value and anywhere in a name or a
/// style.
pub open spec fn plain_char(c: char) -> bool {
    !is_ws(c) && c != ',' && c != '"' && c != '[' && c != ']' && c != '=' && c != '#'
}

pub open spec fn all_plain(s: Seq<char>) -> bool {
    forall|i: int| 0 <= i < s.len() ==> plain_char(#[trigger] s[i])
}

/// The escape of one character inside a quoted value.
pub open spec fn escape_char(c: char) -> Seq<char> {
    if c == '\\' || c == '"' {
        seq!['\\', c]
    } else {
        seq![c]
    }
}

/// `s` with `\` and `"` escaped by a backslash.
pub open spec fn escape(s: Seq<char>) -> Seq<char>
    decreases s.len(),
{
    if s.len() == 0 {
        Seq::empty()
    } else {
        escape_char(s[0]) + escape(s.drop_first())
    }
}

/// A value as written in a line: quoted and escaped unless every character
/// is plain.
pub open spec fn render_value(v: Seq<char>) -> Seq<char> {
    if all_plain(v) {
        v
    } else {
        seq!['"'] + escape(v) + seq!['"']
    }
}

/// One item as written in a line.
pub open spec fn render_item(it: ItemView) -> Seq<char> {
    match it {
        ItemView::Style(s) => s,
        ItemView::Id(s) => seq!['#'] + s,
        ItemView::Kv { name, value } => name + seq!['='] + render_value(value),
        ItemView::Raw(r) => r,
    }
}

/// The comma-separated pieces of a line: a style directly followed by an id
/// is written as one `style#id` piece.
pub open spec fn render_pieces(items: Seq<ItemView>) -> Seq<Seq<char>>
    decreases items.len(),
{
    if items.len() == 0 {
        Seq::empty()
    } else if items.len() >= 2 && items[0] is Style && items[1] is Id {
        seq![items[0]->Style_0 + seq!['#'] + items[1]->Id_0] + render_pieces(
            items.subrange(2, items.len() as int),
        )
    } else {
        seq![render_item(items[0])] + render_pieces(items.drop_first())
    }
}

/// Pieces joined by `", "`.
pub open spec fn join(ps: Seq<Seq<char>>) -> Seq<char>
    decreases ps.len(),
{
    if ps.len() == 0 {
        Seq::empty()
    } else if ps.len() == 1 {
        ps[0]
    } else {
        ps[0] + seq![',', ' '] + join(ps.drop_first())
    }
}

/// The attribute line for `items`.
pub open spec fn render_line(items: Seq<ItemView>) -> Seq<char> {
    seq!['['] + join(render_pieces(items)) + seq![']']
}

/// The text an item carries has no line break.
pub open spec fn single_line(it: ItemView) -> bool {
    match it {
        ItemView::Style(s) => no_line_break(s),
        ItemView::Id(s) => no_line_break(s),
        ItemView::Kv { name, value } => no_line_break(name) && no_line_break(value),
        ItemView::Raw(r) => no_line_break(r),
    }
}

/// Every item of `items` fits on one line.
pub open spec fn all_single_line(items: Seq<ItemView>) -> bool {
    forall|i: int| 0 <= i < items.len() ==> single_line(#[trigger] items[i])
}

/// Characters an id may hold and still read back unchanged.
pub open spec fn id_char(c: char) -> bool {
    !is_ws(c) && c != ',' && c != '"' && c != ']'
}

/// Items that read back exactly as they were rendered: styles and names are
/// nonempty and plain, ids avoid whitespace, commas, quotes and `]`, values
/// hold no line break. Raw items are excluded.
pub open spec fn renderable(it: ItemView) -> bool {
    match it {
        ItemView::Style(s) => s.len() > 0 && all_plain(s),
        ItemView::Id(s) => forall|i: int| 0 <= i < s.len() ==> id_char(#[trigger] s[i]),
        ItemView::Kv { name, value } => name.len() > 0 && all_plain(name) && no_line_break(value),
        ItemView::Raw(_) => false,
    }
}

pub open spec fn all_renderable(items: Seq<ItemView>) -> bool {
    forall|i: int| 0 <= i < items.len() ==> renderable(#[trigger] items[i])
}


// ---------------------------------------------------------------------------
// Lemmas
// ---------------------------------------------------------------------------

/// Scanning `a + b` is scanning `a`, then `b`.
pub proof fn lemma_split_concat(st: SplitState, a: Seq<char>, b: Seq<char>)
    ensures
        split_from(st, a + b) == split_from(split_from(st, a), b),
    decreases b.len(),
{
    if b.len() == 0 {
        assert(a + b =~= a);
    } else {
        assert((a + b).drop_last() =~= a + b.drop_last());
        assert((a + b).last() == b.last());
        lemma_split_concat(st, a, b.drop_last());
    }
}

/// Scanning one character is one step.
pub proof fn lemma_split_one(st: SplitState, c: char)
    ensures
        split_from(st, seq![c]) == split_step(st, c),
{
    let s = seq![c];
    assert(s.drop_last() =~= Seq::<char>::empty());
    assert(split_from(st, Seq::<char>::empty()) == st);
    assert(s.last() == c);
}

/// Scanning two characters is two steps.
pub proof fn lemma_split_two(st: SplitState, a: char, b: char)
    ensures
        split_from(st, seq![a, b]) == split_step(split_step(st, a), b),
{
    let s = seq![a, b];
    assert(s.drop_last() =~= seq![a]);
    lemma_split_one(st, a);
    assert(s.last() == b);
}

/// Text without quotes or commas is appended to the current part.
pub proof fn lemma_split_plain(parts: Seq<Seq<char>>, cur: Seq<char>, s: Seq<char>)
    requires
        forall|i: int| 0 <= i < s.len() ==> #[trigger] s[i] != '"' && s[i] != ',',
    ensures
        split_from((parts, cur, false, false), s) == (parts, cur + s, false, false),
    decreases s.len(),
{
    if s.len() == 0 {
        assert(cur + s =~= cur);
    } else {
        lemma_split_plain(parts, cur, s.drop_last());
        assert(s.last() == s[s.len() - 1]);
        assert((cur + s.drop_last()).push(s.last()) =~= cur + s);
    }
}

/// Escaped text inside quotes is appended to the current part and leaves
/// the scan inside the quotes.
pub proof fn lemma_split_escaped(parts: Seq<Seq<char>>, cur: Seq<char>, v: Seq<char>)
    ensures
        split_from((parts, cur, true, false), escape(v)) == (parts, cur + escape(v), true, false),
    decreases v.len(),
{
    if v.len() == 0 {
        assert(cur + escape(v) =~= cur);
    } else {
        let c = v[0];
        let e = escape_char(c);
        let rest = v.drop_first();
        assert(escape(v) == e + escape(rest));
        lemma_split_concat((parts, cur, true, false), e, escape(rest));
        if c == '\\' || c == '"' {
            assert(e == seq!['\\', c]);
            lemma_split_two((parts, cur, true, false), '\\', c);
            assert(cur.push('\\').push(c) =~= cur + e);
        } else {
            assert(e == seq![c]);
            lemma_split_one((parts, cur, true, false), c);
            assert(cur.push(c) =~= cur + e);
        }
        lemma_split_escaped(parts, cur + e, rest);
        assert(cur + e + escape(rest) =~= cur + escape(v));
    }
}

/// Escaping distributes over concatenation.
pub proof fn lemma_escape_concat(a: Seq<char>, b: Seq<char>)
    ensures
        escape(a + b) == escape(a) + escape(b),
    decreases a.len(),
{
    if a.len() == 0 {
        assert(a + b =~= b);
        assert(escape(a) + escape(b) =~= escape(b));
    } else {
        assert((a + b).drop_first() =~= a.drop_first() + b);
        assert((a + b)[0] == a[0]);
        lemma_escape_concat(a.drop_first(), b);
        assert(escape_char(a[0]) + (escape(a.drop_first()) + escape(b)) =~= escape(a) + escape(b));
    }
}

/// Decoding undoes escaping.
pub proof fn lemma_unescape_escape(v: Seq<char>)
    ensures
        unescape(escape(v)) == v,
    decreases v.len(),
{
    if v.len() == 0 {
    } else {
        let c = v[0];
        let rest = v.drop_first();
        let s = escape(v);
        lemma_unescape_escape(rest);
        if c == '\\' || c == '"' {
            assert(s == seq!['\\', c] + escape(rest));
            assert(s.subrange(2, s.len() as int) =~= escape(rest));
            assert(seq![c] + rest =~= v);
        } else {
            assert(s == seq![c] + escape(rest));
            assert(s.drop_first() =~= escape(rest));
            assert(seq![c] + rest =~= v);
        }
    }
}

/// What `find` computes.
pub proof fn lemma_find(p: Seq<char>, c: char)
    ensures
        -1 <= find(p, c) < p.len(),
        find(p, c) == -1 <==> (forall|j: int| 0 <= j < p.len() ==> p[j] != c),
        find(p, c) >= 0 ==> p[find(p, c)] == c && (forall|j: int|
            0 <= j < find(p, c) ==> p[j] != c),
    decreases p.len(),
{
    if p.len() > 0 && p[0] != c {
        lemma_find(p.drop_first(), c);
        if find(p, c) == -1 {
            assert forall|j: int| 0 <= j < p.len() implies p[j] != c by {
                if j > 0 {
                    assert(p[j] == p.drop_first()[j - 1]);
                }
            }
        } else {
            assert forall|j: int| 0 <= j < find(p, c) implies p[j] != c by {
                if j > 0 {
                    assert(p[j] == p.drop_first()[j - 1]);
                }
            }
        }
        if forall|j: int| 0 <= j < p.len() ==> p[j] != c {
            assert forall|j: int| 0 <= j < p.drop_first().len() implies p.drop_first()[j] != c by {
                assert(p.drop_first()[j] == p[j + 1]);
            }
        }
    }
}

/// A first occurrence is what `find` returns.
pub proof fn lemma_find_at(p: Seq<char>, c: char, i: int)
    requires
        0 <= i < p.len(),
        p[i] == c,
        forall|j: int| 0 <= j < i ==> p[j] != c,
    ensures
        find(p, c) == i,
{
    lemma_find(p, c);
}

/// Scanning `", "` from a clean state closes the current part.
pub proof fn lemma_split_separator(parts: Seq<Seq<char>>, cur: Seq<char>)
    ensures
        split_from((parts, cur, false, false), seq![',', ' ']) == (
            parts.push(cur),
            seq![' '],
            false,
            false,
        ),
{
    lemma_split_two((parts, cur, false, false), ',', ' ');
    assert(Seq::<char>::empty().push(' ') =~= seq![' ']);
}

/// A piece that scans as plain text from any clean state.
pub open spec fn clean(p: Seq<char>) -> bool {
    forall|parts: Seq<Seq<char>>, cur: Seq<char>|
        #[trigger] split_from((parts, cur, false, false), p) == (parts, cur + p, false, false)
}

/// A piece whose ends survive trimming and bracket stripping.
pub open spec fn ends_ok(p: Seq<char>) -> bool {
    &&& p.len() > 0
    &&& !is_ws(p[0])
    &&& p[0] != '['
    &&& !is_ws(p.last())
    &&& p.last() != ']'
}

/// The items of a list of pieces, each classified whole.
pub open spec fn classify_all(ps: Seq<Seq<char>>) -> Seq<ItemView>
    decreases ps.len(),
{
    if ps.len() == 0 {
        Seq::empty()
    } else {
        classify(ps[0]) + classify_all(ps.drop_first())
    }
}

/// The parts the top-level split produces from joined clean pieces.
pub proof fn lemma_join_split(parts: Seq<Seq<char>>, cur: Seq<char>, ps: Seq<Seq<char>>)
    requires
        ps.len() > 0,
        forall|i: int| 0 <= i < ps.len() ==> clean(#[trigger] ps[i]),
    ensures
        ({
            let st = split_from((parts, cur, false, false), join(ps));
            &&& st.0.push(st.1) == parts + seq![cur + ps[0]] + Seq::new(
                (ps.len() - 1) as nat,
                |i: int| seq![' '] + ps[i + 1],
            )
            &&& !st.2
            &&& !st.3
        }),
    decreases ps.len(),
{
    let p0 = ps[0];
    assert(clean(p0));
    assert(split_from((parts, cur, false, false), p0) == (parts, cur + p0, false, false));
    if ps.len() == 1 {
        let st = split_from((parts, cur, false, false), join(ps));
        assert(st.0.push(st.1) =~= parts + seq![cur + ps[0]] + Seq::new(
            (ps.len() - 1) as nat,
            |i: int| seq![' '] + ps[i + 1],
        ));
    } else {
        let rest = ps.drop_first();
        let sep = seq![',', ' '];
        assert(join(ps) == p0 + sep + join(rest));
        lemma_split_concat((parts, cur, false, false), p0 + sep, join(rest));
        lemma_split_concat((parts, cur, false, false), p0, sep);
        lemma_split_separator(parts, cur + p0);
        assert forall|i: int| 0 <= i < rest.len() implies clean(#[trigger] rest[i]) by {
            assert(rest[i] == ps[i + 1]);
        }
        lemma_join_split(parts.push(cur + p0), seq![' '], rest);
        let st = split_from((parts, cur, false, false), join(ps));
        assert(st == split_from((parts.push(cur + p0), seq![' '], false, false), join(rest)));
        assert(st.0.push(st.1) =~= parts + seq![cur + ps[0]] + Seq::new(
            (ps.len() - 1) as nat,
            |i: int| seq![' '] + ps[i + 1],
        ));
    }
}

/// Parts that trim to nonempty pieces read as those pieces.
pub proof fn lemma_parse_trimmed(qs: Seq<Seq<char>>, ps: Seq<Seq<char>>)
    requires
        qs.len() == ps.len(),
        forall|i: int| 0 <= i < qs.len() ==> trim(#[trigger] qs[i]) == ps[i],
        forall|i: int| 0 <= i < ps.len() ==> #[trigger] ps[i].len() > 0,
    ensures
        parse_parts(qs) == classify_all(ps),
    decreases qs.len(),
{
    if qs.len() > 0 {
        assert(trim(qs[0]) == ps[0]);
        assert(ps[0].len() > 0);
        let q1 = qs.drop_first();
        let p1 = ps.drop_first();
        assert forall|i: int| 0 <= i < q1.len() implies trim(#[trigger] q1[i]) == p1[i] by {
            assert(q1[i] == qs[i + 1]);
            assert(p1[i] == ps[i + 1]);
        }
        assert forall|i: int| 0 <= i < p1.len() implies #[trigger] p1[i].len() > 0 by {
            assert(p1[i] == ps[i + 1]);
        }
        lemma_parse_trimmed(q1, p1);
    }
}

/// Text with neither quotes nor commas is clean.
pub proof fn lemma_clean_plain(p: Seq<char>)
    requires
        forall|i: int| 0 <= i < p.len() ==> #[trigger] p[i] != '"' && p[i] != ',',
    ensures
        clean(p),
{
    assert forall|parts: Seq<Seq<char>>, cur: Seq<char>|
        #[trigger] split_from((parts, cur, false, false), p) == (parts, cur + p, false, false) by {
        lemma_split_plain(parts, cur, p);
    }
}

/// A rendered value, quoted or not, follows a clean name and `=` cleanly.
pub proof fn lemma_clean_kv(name: Seq<char>, v: Seq<char>)
    requires
        all_plain(name),
    ensures
        clean(name + seq!['='] + render_value(v)),
{
    let head = name + seq!['='];
    assert forall|i: int| 0 <= i < head.len() implies #[trigger] head[i] != '"' && head[i] != ',' by {
        if i < name.len() {
            assert(plain_char(name[i]));
        }
    }
    if all_plain(v) {
        let p = head + v;
        assert forall|i: int| 0 <= i < p.len() implies #[trigger] p[i] != '"' && p[i] != ',' by {
            if i >= head.len() {
                assert(plain_char(v[i - head.len()]));
            }
        }
        lemma_clean_plain(p);
    } else {
        let q = seq!['"'];
        let x = name + seq!['='] + render_value(v);
        let a = head + q;
        let b = a + escape(v);
        assert(render_value(v) == q + escape(v) + q);
        assert(x =~= b + q);
        assert forall|parts: Seq<Seq<char>>, cur: Seq<char>|
            #[trigger] split_from((parts, cur, false, false), x) == (parts, cur + x, false, false) by {
            let st0 = (parts, cur, false, false);
            lemma_split_concat(st0, b, q);
            lemma_split_concat(st0, a, escape(v));
            lemma_split_concat(st0, head, q);
            lemma_split_plain(parts, cur, head);
            lemma_split_one((parts, cur + head, false, false), '"');
            let s1 = split_from(st0, a);
            assert(s1 == (parts, (cur + head).push('"'), true, false));
            lemma_split_escaped(parts, (cur + head).push('"'), v);
            let s2 = split_from(st0, b);
            assert(s2 == (parts, (cur + head).push('"') + escape(v), true, false));
            lemma_split_one(s2, '"');
            assert(split_from(st0, x) == split_from(st0, b + q));
            assert(cur + x =~= ((cur + head).push('"') + escape(v)).push('"'));
        }
    }
}

/// The first and last characters of joined nonempty pieces.
pub proof fn lemma_join_ends(ps: Seq<Seq<char>>)
    requires
        ps.len() > 0,
        forall|i: int| 0 <= i < ps.len() ==> #[trigger] ps[i].len() > 0,
    ensures
        join(ps).len() > 0,
        join(ps)[0] == ps[0][0],
        join(ps).last() == ps.last().last(),
    decreases ps.len(),
{
    assert(ps[0].len() > 0);
    if ps.len() > 1 {
        let rest = ps.drop_first();
        assert forall|i: int| 0 <= i < rest.len() implies #[trigger] rest[i].len() > 0 by {
            assert(rest[i] == ps[i + 1]);
        }
        lemma_join_ends(rest);
        assert(rest.last() == ps.last());
        let sep = seq![',', ' '];
        assert(join(ps) == ps[0] + sep + join(rest));
        assert((ps[0] + sep + join(rest))[0] == ps[0][0]);
        assert((ps[0] + sep + join(rest)).last() == join(rest).last());
    }
}

/// Text without `#` or quotes is skipped outside quotes.
pub proof fn lemma_hash_skip_plain(p: Seq<char>, i: int, k: int)
    requires
        0 <= i <= k <= p.len(),
        forall|j: int| i <= j < k ==> #[trigger] p[j] != '#' && p[j] != '"',
    ensures
        hash_from(p, i, false, false) == hash_from(p, k, false, false),
    decreases k - i,
{
    if i < k {
        lemma_hash_skip_plain(p, i + 1, k);
    }
}

/// Escaped text inside quotes is skipped, and the scan stays inside them.
pub proof fn lemma_hash_skip_escaped(p: Seq<char>, i: int, v: Seq<char>)
    requires
        0 <= i,
        i + escape(v).len() <= p.len(),
        p.subrange(i, i + escape(v).len()) == escape(v),
    ensures
        hash_from(p, i, true, false) == hash_from(p, i + escape(v).len(), true, false),
    decreases v.len(),
{
    if v.len() > 0 {
        let c = v[0];
        let e = escape_char(c);
        let rest = v.drop_first();
        assert(escape(v) == e + escape(rest));
        assert(p[i] == escape(v)[0]);
        if c == '\\' || c == '"' {
            assert(p[i + 1] == escape(v)[1]);
            assert(p.subrange(i + 2, i + 2 + escape(rest).len()) =~= escape(v).subrange(2, escape(v).len() as int));
            assert(escape(v).subrange(2, escape(v).len() as int) =~= escape(rest));
            lemma_hash_skip_escaped(p, i + 2, rest);
            assert(p[i] == '\\');
            assert(hash_from(p, i, true, false) == hash_from(p, i + 1, true, true));
            assert(hash_from(p, i + 1, true, true) == hash_from(p, i + 2, true, false));
        } else {
            assert(p.subrange(i + 1, i + 1 + escape(rest).len()) =~= escape(v).subrange(1, escape(v).len() as int));
            assert(escape(v).subrange(1, escape(v).len() as int) =~= escape(rest));
            lemma_hash_skip_escaped(p, i + 1, rest);
            assert(p[i] == c);
            assert(hash_from(p, i, true, false) == hash_from(p, i + 1, true, false));
        }
    }
}

/// A plain style reads back as itself.
pub proof fn lemma_classify_style(st: Seq<char>)
    requires
        st.len() > 0,
        all_plain(st),
    ensures
        classify(st) == seq![ItemView::Style(st)],
{
    assert(plain_char(st[0]));
    lemma_find(st, '=');
    if find(st, '=') >= 0 {
        assert(plain_char(st[find(st, '=')]));
    }
    assert forall|j: int| 0 <= j < st.len() implies #[trigger] st[j] != '#' && st[j] != '"' by {
        assert(plain_char(st[j]));
    }
    lemma_hash_skip_plain(st, 0, st.len() as int);
}

/// `#id` reads back as the id.
pub proof fn lemma_classify_id(id: Seq<char>)
    ensures
        classify(seq!['#'] + id) == seq![ItemView::Id(id)],
{
    let p = seq!['#'] + id;
    assert(p.drop_first() =~= id);
}

/// `style#id` reads back as the style and the id.
pub proof fn lemma_classify_style_id(st: Seq<char>, id: Seq<char>)
    requires
        st.len() > 0,
        all_plain(st),
    ensures
        classify(st + seq!['#'] + id) == seq![ItemView::Style(st), ItemView::Id(id)],
{
    let p = st + seq!['#'] + id;
    let h = st.len() as int;
    assert(p[0] == st[0]);
    assert(plain_char(st[0]));
    assert forall|j: int| 0 <= j < h implies #[trigger] p[j] != '#' && p[j] != '"' by {
        assert(p[j] == st[j]);
        assert(plain_char(st[j]));
    }
    lemma_hash_skip_plain(p, 0, h);
    assert(p[h] == '#');
    assert(p.take(h) =~= st);
    assert(p.subrange(h + 1, p.len() as int) =~= id);
}

/// `name=value` reads back as the named attribute.
pub proof fn lemma_classify_kv(name: Seq<char>, v: Seq<char>)
    requires
        name.len() > 0,
        all_plain(name),
    ensures
        classify(name + seq!['='] + render_value(v)) == seq![
            ItemView::Kv { name: name, value: v },
        ],
{
    let rv = render_value(v);
    let p = name + seq!['='] + rv;
    let e = name.len() as int;
    assert(p[0] == name[0]);
    assert(plain_char(name[0]));
    assert forall|j: int| 0 <= j < e implies p[j] != '=' && p[j] != '#' by {
        assert(p[j] == name[j]);
        assert(plain_char(name[j]));
    }
    lemma_find_at(p, '=', e);
    assert forall|j: int| 0 <= j < e + 1 implies #[trigger] p[j] != '#' && p[j] != '"' by {
        if j < e {
            assert(p[j] == name[j]);
            assert(plain_char(name[j]));
        }
    }
    lemma_hash_skip_plain(p, 0, e + 1);
    if all_plain(v) {
        assert forall|j: int| e + 1 <= j < p.len() implies #[trigger] p[j] != '#' && p[j] != '"' by {
            assert(p[j] == v[j - e - 1]);
            assert(plain_char(v[j - e - 1]));
        }
        lemma_hash_skip_plain(p, e + 1, p.len() as int);
    } else {
        let n = escape(v).len() as int;
        assert(rv == seq!['"'] + escape(v) + seq!['"']);
        assert(p[e + 1] == '"');
        assert(p.subrange(e + 2, e + 2 + n) =~= escape(v));
        lemma_hash_skip_escaped(p, e + 2, v);
        assert(p[e + 2 + n] == '"');
        assert(p.len() == e + 3 + n);
        assert(hash_from(p, e + 1, false, false) == hash_from(p, e + 2, true, false));
        assert(hash_from(p, e + 2 + n, true, false) == hash_from(p, e + 3 + n, false, false));
    }
    assert(unquoted_hash(p) == -1);
    assert(p.take(e) =~= name);
    assert(p.subrange(e + 1, p.len() as int) =~= rv);
    assert(plain_char(name[name.len() - 1]));
    lemma_trim_fixed(name);
    if all_plain(v) {
        if v.len() > 0 {
            assert(plain_char(v[0]));
            assert(plain_char(v[v.len() - 1]));
        }
        lemma_trim_fixed(v);
        if v.len() >= 2 {
            assert(plain_char(v[0]));
        }
    } else {
        let q = seq!['"'];
        assert(rv == q + escape(v) + q);
        assert(rv[0] == '"');
        assert(rv.last() == '"');
        lemma_trim_fixed(rv);
        assert(rv.subrange(1, rv.len() - 1) =~= escape(v));
        lemma_unescape_escape(v);
    }
}

/// Rendered pieces of renderable items are clean, have safe ends, and read
/// back as the items.
pub proof fn lemma_pieces(items: Seq<ItemView>)
    requires
        all_renderable(items),
    ensures
        forall|i: int|
            0 <= i < render_pieces(items).len() ==> clean(#[trigger] render_pieces(items)[i])
                && ends_ok(render_pieces(items)[i]),
        classify_all(render_pieces(items)) == items,
    decreases items.len(),
{
    let ps = render_pieces(items);
    if items.len() == 0 {
        return;
    }
    let first: Seq<char>;
    let rest_items: Seq<ItemView>;
    if items.len() >= 2 && items[0] is Style && items[1] is Id {
        assert(renderable(items[0]));
        assert(renderable(items[1]));
        let st = items[0]->Style_0;
        let id = items[1]->Id_0;
        first = st + seq!['#'] + id;
        rest_items = items.subrange(2, items.len() as int);
        assert forall|i: int| 0 <= i < first.len() implies #[trigger] first[i] != '"' && first[i]
            != ',' by {
            if i < st.len() {
                assert(plain_char(st[i]));
            } else if i > st.len() {
                assert(first[i] == id[i - st.len() - 1]);
                assert(id_char(id[i - st.len() - 1]));
            }
        }
        lemma_clean_plain(first);
        assert(plain_char(st[0]));
        if id.len() > 0 {
            assert(id_char(id[id.len() - 1]));
        }
        lemma_classify_style_id(st, id);
        assert(items =~= seq![items[0], items[1]] + rest_items);
        assert(seq![ItemView::Style(st), ItemView::Id(id)] =~= seq![items[0], items[1]]);
    } else {
        let it = items[0];
        assert(renderable(it));
        first = render_item(it);
        rest_items = items.drop_first();
        match it {
            ItemView::Style(st) => {
                assert forall|i: int| 0 <= i < st.len() implies #[trigger] st[i] != '"' && st[i]
                    != ',' by {
                    assert(plain_char(st[i]));
                }
                lemma_clean_plain(st);
                assert(plain_char(st[0]));
                assert(plain_char(st[st.len() - 1]));
                lemma_classify_style(st);
            },
            ItemView::Id(id) => {
                assert forall|i: int| 0 <= i < first.len() implies #[trigger] first[i] != '"'
                    && first[i] != ',' by {
                    if i > 0 {
                        assert(first[i] == id[i - 1]);
                        assert(id_char(id[i - 1]));
                    }
                }
                lemma_clean_plain(first);
                if id.len() > 0 {
                    assert(id_char(id[id.len() - 1]));
                }
                lemma_classify_id(id);
            },
            ItemView::Kv { name, value } => {
                lemma_clean_kv(name, value);
                lemma_classify_kv(name, value);
                assert(plain_char(name[0]));
                let rv = render_value(value);
                if all_plain(value) && value.len() > 0 {
                    assert(plain_char(value[value.len() - 1]));
                }
                if !all_plain(value) {
                    assert(rv == seq!['"'] + escape(value) + seq!['"']);
                }
                assert(first.last() == if rv.len() == 0 { '=' } else { rv.last() });
            },
            ItemView::Raw(_) => {},
        }
        assert(items =~= seq![items[0]] + rest_items);
    }
    assert forall|i: int| 0 <= i < rest_items.len() implies renderable(#[trigger] rest_items[i]) by {
        if items.len() >= 2 && items[0] is Style && items[1] is Id {
            assert(rest_items[i] == items[i + 2]);
        } else {
            assert(rest_items[i] == items[i + 1]);
        }
    }
    lemma_pieces(rest_items);
    let rps = render_pieces(rest_items);
    assert(ps == seq![first] + rps);
    assert(ps.drop_first() =~= rps);
    assert forall|i: int| 0 <= i < ps.len() implies clean(#[trigger] ps[i]) && ends_ok(ps[i]) by {
        if i > 0 {
            assert(ps[i] == rps[i - 1]);
        }
    }
}

/// Rendering a line and parsing it back gives the same items, for every
/// list of renderable items.
pub proof fn lemma_render_parse(items: Seq<ItemView>)
    requires
        all_renderable(items),
    ensures
        parse_items(render_line(items)) == items,
{
    lemma_pieces(items);
    let ps = render_pieces(items);
    let j = join(ps);
    let line = render_line(items);
    assert(line == seq!['['] + j + seq![']']);
    lemma_trim_fixed(line);
    assert(line.drop_first() =~= j + seq![']']);
    if ps.len() == 0 {
        assert(j.len() == 0);
        assert(strip_open(line) == strip_open(seq![']'])) by {
            assert(line.drop_first() =~= seq![']']);
        }
        assert(strip_open(seq![']']) == seq![']']);
        assert(seq![']'].drop_last() =~= Seq::<char>::empty());
        assert(strip_close(Seq::<char>::empty()) == Seq::<char>::empty());
        assert(seq![']'].last() == ']');
        assert(strip_close(seq![']']) == Seq::<char>::empty());
        assert(split_top_level(Seq::<char>::empty()) =~= seq![Seq::<char>::empty()]);
        let parts = seq![Seq::<char>::empty()];
        assert(parts.drop_first() =~= Seq::<Seq<char>>::empty());
        lemma_trim_fixed(Seq::<char>::empty());
        assert(parts[0] == Seq::<char>::empty());
        assert(parse_parts(parts.drop_first()) == Seq::<ItemView>::empty());
        assert(parse_parts(parts) =~= Seq::<ItemView>::empty());
        if items.len() > 0 {
            if items.len() >= 2 && items[0] is Style && items[1] is Id {
            } else {
            }
        }
    } else {
        assert forall|i: int| 0 <= i < ps.len() implies #[trigger] ps[i].len() > 0 by {
            assert(ends_ok(ps[i]));
        }
        lemma_join_ends(ps);
        assert(ends_ok(ps[0]));
        assert(ends_ok(ps[ps.len() - 1]));
        assert((j + seq![']'])[0] == j[0]);
        assert(line[0] == '[');
        assert(strip_open(j + seq![']']) == j + seq![']']);
        assert(strip_open(line) == j + seq![']']);
        assert((j + seq![']']).drop_last() =~= j);
        assert((j + seq![']']).last() == ']');
        assert(j.last() == ps[ps.len() - 1].last());
        assert(strip_close(j) == j);
        assert(strip_close(j + seq![']']) == j);
        lemma_join_split(Seq::empty(), Seq::empty(), ps);
        let qs = split_top_level(j);
        assert(Seq::<char>::empty() + ps[0] =~= ps[0]);
        assert(qs =~= seq![ps[0]] + Seq::new((ps.len() - 1) as nat, |i: int| seq![' '] + ps[i + 1]));
        assert forall|i: int| 0 <= i < qs.len() implies trim(#[trigger] qs[i]) == ps[i] by {
            assert(ends_ok(ps[i]));
            if i == 0 {
                lemma_trim_fixed(ps[0]);
            } else {
                assert(qs[i] == seq![' '] + ps[i]);
                lemma_trim_space(ps[i]);
            }
        }
        lemma_parse_trimmed(qs, ps);
    }
}

// ---------------------------------------------------------------------------
// Executable parsing
// ---------------------------------------------------------------------------

/// The views of a list of character vectors.
pub open spec fn seqs_view(v: Seq<Vec<char>>) -> Seq<Seq<char>> {
    v.map_values(|x: Vec<char>| x@)
}

/// Split `v[a..b]` at its top-level commas.
pub fn split_top_level_chars(v: &[char], a: usize, b: usize) -> (r: Vec<Vec<char>>)
    requires
        a <= b <= v@.len(),
    ensures
        seqs_view(r@) == split_top_level(v@.subrange(a as int, b as int)),
{
    let mut parts: Vec<Vec<char>> = Vec::new();
    let mut cur: Vec<char> = Vec::new();
    let mut in_q = false;
    let mut esc = false;
    let mut i = a;
    assert(v@.subrange(a as int, a as int) =~= Seq::<char>::empty());
    assert(seqs_view(parts@) =~= Seq::<Seq<char>>::empty());
    while i < b
        invariant
            a <= i <= b <= v@.len(),
            (seqs_view(parts@), cur@, in_q, esc) == split_from(
                split_init(),
                v@.subrange(a as int, i as int),
            ),
        decreases b - i,
    {
        let c = v[i];
        let ghost before = split_from(split_init(), v@.subrange(a as int, i as int));
        assert(v@.subrange(a as int, i + 1).drop_last() =~= v@.subrange(a as int, i as int));
        assert(v@.subrange(a as int, i + 1).last() == c);
        if esc {
            cur.push(c);
            esc = false;
        } else if c == '\\' && in_q {
            cur.push(c);
            esc = true;
        } else if c == '"' {
            cur.push(c);
            in_q = !in_q;
        } else if c == ',' && !in_q {
            let done = cur;
            cur = Vec::new();
            parts.push(done);
            assert(seqs_view(parts@) =~= before.0.push(before.1));
        } else {
            cur.push(c);
        }
        i += 1;
    }
    let ghost st = split_from(split_init(), v@.subrange(a as int, b as int));
    parts.push(cur);
    assert(seqs_view(parts@) =~= st.0.push(st.1));
    parts
}

/// The first `c` in `v[a..b]`, as an index into `v`.
pub fn find_char(v: &[char], a: usize, b: usize, c: char) -> (r: Option<usize>)
    requires
        a <= b <= v@.len(),
    ensures
        match r {
            Some(i) => a <= i < b && find(v@.subrange(a as int, b as int), c) == i - a,
            None => find(v@.subrange(a as int, b as int), c) == -1,
        },
{
    let ghost sub = v@.subrange(a as int, b as int);
    let mut i = a;
    while i < b
        invariant
            a <= i <= b <= v@.len(),
            sub == v@.subrange(a as int, b as int),
            forall|j: int| 0 <= j < i - a ==> sub[j] != c,
        decreases b - i,
    {
        if v[i] == c {
            proof {
                lemma_find_at(sub, c, i - a);
            }
            return Some(i);
        }
        i += 1;
    }
    proof {
        lemma_find(sub, c);
    }
    None
}

/// The first `#` of `v[a..b]` outside double quotes, as an index into `v`.
pub fn unquoted_hash_in(v: &[char], a: usize, b: usize) -> (r: Option<usize>)
    requires
        a <= b <= v@.len(),
    ensures
        match r {
            Some(i) => a <= i < b && unquoted_hash(v@.subrange(a as int, b as int)) == i - a,
            None => unquoted_hash(v@.subrange(a as int, b as int)) == -1,
        },
{
    let ghost sub = v@.subrange(a as int, b as int);
    let mut i = a;
    let mut in_q = false;
    let mut esc = false;
    while i < b
        invariant
            a <= i <= b <= v@.len(),
            sub == v@.subrange(a as int, b as int),
            unquoted_hash(sub) == hash_from(sub, i - a, in_q, esc),
        decreases b - i,
    {
        let c = v[i];
        assert(sub[i - a] == c);
        if esc {
            esc = false;
        } else if c == '\\' && in_q {
            esc = true;
        } else if c == '"' {
            in_q = !in_q;
        } else if c == '#' && !in_q {
            return Some(i);
        }
        i += 1;
    }
    None
}

/// `v[a..b]` with its escapes decoded.
pub fn unescape_range(v: &[char], a: usize, b: usize) -> (r: String)
    requires
        a <= b <= v@.len(),
    ensures
        r@ == unescape(v@.subrange(a as int, b as int)),
{
    let mut out = String::new();
    let mut i = a;
    while i < b
        invariant
            a <= i <= b <= v@.len(),
            out@ + unescape(v@.subrange(i as int, b as int)) == unescape(
                v@.subrange(a as int, b as int),
            ),
        decreases b - i,
    {
        let ghost rest = v@.subrange(i as int, b as int);
        if v[i] == '\\' && i + 1 < b && (v[i + 1] == '"' || v[i + 1] == '\\') {
            assert(rest.subrange(2, rest.len() as int) =~= v@.subrange(i + 2, b as int));
            push_char(&mut out, v[i + 1]);
            assert(out@ + unescape(v@.subrange(i + 2, b as int)) =~= (out@.drop_last() + seq![
                rest[1],
            ]) + unescape(v@.subrange(i + 2, b as int)));
            i += 2;
        } else {
            assert(rest.drop_first() =~= v@.subrange(i + 1, b as int));
            push_char(&mut out, v[i]);
            assert(out@ + unescape(v@.subrange(i + 1, b as int)) =~= (out@.drop_last() + seq![
                rest[0],
            ]) + unescape(v@.subrange(i + 1, b as int)));
            i += 1;
        }
    }
    assert(out@ + unescape(v@.subrange(b as int, b as int)) =~= out@);
    out
}

/// `v[a..b]` unquoted.
pub fn unquote_range(v: &[char], a: usize, b: usize) -> (r: String)
    requires
        a <= b <= v@.len(),
    ensures
        r@ == unquote(v@.subrange(a as int, b as int)),
{
    let ghost sub = v@.subrange(a as int, b as int);
    if b - a >= 2 && v[a] == '"' && v[b - 1] == '"' {
        assert(sub.subrange(1, sub.len() - 1) =~= v@.subrange(a + 1, b - 1));
        unescape_range(v, a + 1, b - 1)
    } else {
        string_of_range(v, a, b)
    }
}

/// Append the items of the trimmed, nonempty part `v[a..b]` to `out`.
pub fn classify_into(v: &[char], a: usize, b: usize, out: &mut Vec<Item>)
    requires
        a < b <= v@.len(),
    ensures
        items_view(final(out)@) == items_view(old(out)@) + classify(v@.subrange(a as int, b as int)),
{
    let ghost p = v@.subrange(a as int, b as int);
    let ghost before = items_view(out@);
    if v[a] == '#' {
        assert(p.drop_first() =~= v@.subrange(a + 1, b as int));
        out.push(Item::Id(string_of_range(v, a + 1, b)));
    } else {
        let e = find_char(v, a, b, '=');
        let h = unquoted_hash_in(v, a, b);
        if h.is_none() && e.is_some() {
            let e = e.unwrap();
            assert(p.take(e - a) =~= v@.subrange(a as int, e as int));
            assert(p.subrange(e - a + 1, p.len() as int) =~= v@.subrange(e + 1, b as int));
            let (na, nb) = trim_bounds(v, a, e);
            let (va, vb) = trim_bounds(v, e + 1, b);
            let name = string_of_range(v, na, nb);
            let value = unquote_range(v, va, vb);
            out.push(Item::Kv { name, value });
        } else if h.is_some() {
            let h = h.unwrap();
            assert(p.take(h - a) =~= v@.subrange(a as int, h as int));
            assert(p.subrange(h - a + 1, p.len() as int) =~= v@.subrange(h + 1, b as int));
            let style = string_of_range(v, a, h);
            let id = string_of_range(v, h + 1, b);
            out.push(Item::Style(style));
            out.push(Item::Id(id));
        } else {
            out.push(Item::Style(string_of_range(v, a, b)));
        }
    }
    assert(items_view(out@) =~= before + classify(p));
}

/// The items of the attribute line `line`.
pub fn parse_items_chars(line: &[char]) -> (r: Vec<Item>)
    ensures
        items_view(r@) == parse_items(line@),
{
    let (a, b) = trim_bounds(line, 0, line.len());
    assert(line@.subrange(0, line@.len() as int) =~= line@);
    let mut a2 = a;
    while a2 < b && line[a2] == '['
        invariant
            a <= a2 <= b <= line@.len(),
            strip_open(line@.subrange(a as int, b as int)) == strip_open(
                line@.subrange(a2 as int, b as int),
            ),
        decreases b - a2,
    {
        assert(line@.subrange(a2 as int, b as int).drop_first() =~= line@.subrange(
            a2 + 1,
            b as int,
        ));
        a2 += 1;
    }
    let mut b2 = b;
    while b2 > a2 && line[b2 - 1] == ']'
        invariant
            a2 <= b2 <= b <= line@.len(),
            strip_open(line@.subrange(a as int, b as int)) == line@.subrange(a2 as int, b as int),
            strip_close(line@.subrange(a2 as int, b as int)) == strip_close(
                line@.subrange(a2 as int, b2 as int),
            ),
        decreases b2 - a2,
    {
        assert(line@.subrange(a2 as int, b2 as int).drop_last() =~= line@.subrange(
            a2 as int,
            b2 - 1,
        ));
        b2 -= 1;
    }
    let parts = split_top_level_chars(line, a2, b2);
    let ghost qs = seqs_view(parts@);
    let mut out: Vec<Item> = Vec::new();
    let mut k: usize = 0;
    assert(qs.skip(0) =~= qs);
    assert(items_view(out@) =~= Seq::<ItemView>::empty());
    while k < parts.len()
        invariant
            k <= parts@.len(),
            qs == seqs_view(parts@),
            qs.len() == parts@.len(),
            items_view(out@) + parse_parts(qs.skip(k as int)) == parse_parts(qs),
        decreases parts@.len() - k,
    {
        let part = &parts[k];
        let (x, y) = trim_bounds(part.as_slice(), 0, part.len());
        assert(part@.subrange(0, part@.len() as int) =~= part@);
        assert(qs[k as int] == part@);
        let ghost rest = qs.skip(k as int);
        assert(rest[0] == qs[k as int]);
        assert(rest.drop_first() =~= qs.skip(k + 1));
        let ghost mid = items_view(out@);
        if x < y {
            classify_into(part.as_slice(), x, y, &mut out);
        }
        assert(items_view(out@) + parse_parts(qs.skip(k + 1)) =~= mid + parse_parts(rest));
        k += 1;
    }
    assert(qs.skip(parts@.len() as int) =~= Seq::<Seq<char>>::empty());
    assert(items_view(out@) + parse_parts(Seq::<Seq<char>>::empty()) =~= items_view(out@));
    out
}

/// Parse the attribute line at bytes `start..end` of `source` into items.
/// Quoted values may contain commas.
pub fn parse_attr_line(source: &str, start: usize, end: usize) -> (r: AttrLine)
    requires
        boundaries(source.spec_bytes(), start as int, end as int),
    ensures
        r.start == start,
        r.end == end,
        vstd::utf8::encode_utf8(r.raw@) == source.spec_bytes().subrange(start as int, end as int),
        items_view(r.items@) == parse_items(r.raw@),
{
    let raw_str = substr(source, start, end);
    let raw = str_to_string(raw_str);
    let chars = chars_of(raw_str);
    let items = parse_items_chars(chars.as_slice());
    AttrLine { start, end, raw, items }
}

// ---------------------------------------------------------------------------
// Executable rendering
// ---------------------------------------------------------------------------

/// Whether `s` holds a `\n` or a `\r`.
pub fn has_line_break(s: &str) -> (r: bool)
    ensures
        r == !no_line_break(s@),
{
    let v = chars_of(s);
    let mut i: usize = 0;
    while i < v.len()
        invariant
            i <= v@.len(),
            v@ == s@,
            forall|j: int| 0 <= j < i ==> #[trigger] v@[j] != '\n' && v@[j] != '\r',
        decreases v@.len() - i,
    {
        if v[i] == '\n' || v[i] == '\r' {
            return true;
        }
        i += 1;
    }
    false
}

/// Whether the text `it` carries fits on one line.
pub fn item_single_line(it: &Item) -> (r: bool)
    ensures
        r == single_line(it@),
{
    match it {
        Item::Style(s) => !has_line_break(s.as_str()),
        Item::Id(s) => !has_line_break(s.as_str()),
        Item::Kv { name, value } => !has_line_break(name.as_str()) && !has_line_break(
            value.as_str(),
        ),
        Item::Raw(r) => !has_line_break(r.as_str()),
    }
}

/// Whether every character of `s` is plain.
pub fn is_all_plain(s: &str) -> (r: bool)
    ensures
        r == all_plain(s@),
{
    let v = chars_of(s);
    let mut i: usize = 0;
    while i < v.len()
        invariant
            i <= v@.len(),
            v@ == s@,
            forall|j: int| 0 <= j < i ==> plain_char(#[trigger] v@[j]),
        decreases v@.len() - i,
    {
        let c = v[i];
        if is_whitespace(c) || c == ',' || c == '"' || c == '[' || c == ']' || c == '=' || c == '#' {
            assert(!plain_char(s@[i as int]));
            return false;
        }
        i += 1;
    }
    true
}

/// Append `v` as a value to `out`: quoted and escaped unless plain.
pub fn push_value(out: &mut String, v: &str)
    ensures
        final(out)@ == old(out)@ + render_value(v@),
{
    if is_all_plain(v) {
        push_str(out, v);
    } else {
        let ghost start = out@;
        push_char(out, '"');
        let chars = chars_of(v);
        let mut i: usize = 0;
        assert(escape(chars@.take(0)) =~= Seq::<char>::empty());
        while i < chars.len()
            invariant
                i <= chars@.len(),
                chars@ == v@,
                out@ == start.push('"') + escape(chars@.take(i as int)),
            decreases chars@.len() - i,
        {
            let c = chars[i];
            proof {
                assert(chars@.take(i + 1) =~= chars@.take(i as int) + seq![c]);
                lemma_escape_concat(chars@.take(i as int), seq![c]);
                assert(seq![c].drop_first() =~= Seq::<char>::empty());
                assert(escape(Seq::<char>::empty()) == Seq::<char>::empty());
                assert(seq![c][0] == c);
                assert(escape(seq![c]) =~= escape_char(c));
            }
            if c == '\\' || c == '"' {
                push_char(out, '\\');
            }
            push_char(out, c);
            assert(out@ =~= start.push('"') + escape(chars@.take(i + 1)));
            i += 1;
        }
        assert(chars@.take(chars@.len() as int) =~= v@);
        push_char(out, '"');
        assert(out@ =~= start + (seq!['"'] + escape(v@) + seq!['"']));
    }
}

/// Append the rendering of one item to `out`.
pub fn push_item(out: &mut String, it: &Item)
    ensures
        final(out)@ == old(out)@ + render_item(it@),
{
    match it {
        Item::Style(s) => push_str(out, s.as_str()),
        Item::Id(s) => {
            push_char(out, '#');
            push_str(out, s.as_str());
            assert(out@ =~= old(out)@ + render_item(it@));
        },
        Item::Kv { name, value } => {
            push_str(out, name.as_str());
            push_char(out, '=');
            push_value(out, value.as_str());
            assert(out@ =~= old(out)@ + render_item(it@));
        },
        Item::Raw(r) => push_str(out, r.as_str()),
    }
}

/// Joining one more piece.
pub proof fn lemma_join_push(ps: Seq<Seq<char>>, p: Seq<char>)
    ensures
        join(ps.push(p)) == if ps.len() == 0 {
            p
        } else {
            join(ps) + seq![',', ' '] + p
        },
    decreases ps.len(),
{
    assert(join(seq![p]) == p);
    if ps.len() == 0 {
        assert(ps.push(p) =~= seq![p]);
    } else if ps.len() == 1 {
        assert(ps.push(p).drop_first() =~= seq![p]);
        assert(ps.push(p)[0] == ps[0]);
        assert(join(ps) == ps[0]);
    } else {
        assert(ps.push(p)[0] == ps[0]);
        lemma_join_push(ps.drop_first(), p);
        assert(ps.push(p).drop_first() =~= ps.drop_first().push(p));
        assert(join(ps.push(p)) =~= join(ps) + seq![',', ' '] + p);
    }
}

/// Why a line break cannot be rendered.
pub open spec fn multiline_refusal() -> Seq<char> {
    "attribute values must be single-line; an item contains a line break"@
}

/// Render items back into an attribute line. Values holding a comma, a
/// quote, a bracket, `=`, `#` or whitespace are quoted, with `\` and `"`
/// escaped inside the quotes; a style directly followed by an id is written
/// `style#id`. Text holding a line break has no single-line form and is
/// rejected.
pub fn render_attr_line(items: &[Item]) -> (r: Result<String, Error>)
    ensures
        match r {
            Ok(s) => all_single_line(items_view(items@)) && s@ == render_line(items_view(items@)),
            Err(e) => !all_single_line(items_view(items@)) && (e matches Error::Unrepresentable(m)
                && m@ == multiline_refusal()),
        },
{
    let ghost iv = items_view(items@);
    let n = items.len();
    let mut k: usize = 0;
    while k < n
        invariant
            k <= n == items@.len() == iv.len(),
            iv == items_view(items@),
            forall|j: int| 0 <= j < k ==> single_line(#[trigger] iv[j]),
        decreases n - k,
    {
        if !item_single_line(&items[k]) {
            assert(!single_line(iv[k as int]));
            return Err(Error::Unrepresentable(
                str_to_string("attribute values must be single-line; an item contains a line break"),
            ));
        }
        k += 1;
    }
    let mut out = String::new();
    push_char(&mut out, '[');
    let ghost mut done: Seq<Seq<char>> = Seq::empty();
    let mut i: usize = 0;
    assert(iv.skip(0) =~= iv);
    assert(out@ =~= seq!['['] + join(done));
    while i < n
        invariant
            i <= n == items@.len() == iv.len(),
            iv == items_view(items@),
            out@ == seq!['['] + join(done),
            (i == 0) <==> (done.len() == 0),
            done + render_pieces(iv.skip(i as int)) == render_pieces(iv),
        decreases n - i,
    {
        let ghost rest = iv.skip(i as int);
        let ghost before = out@;
        if i > 0 {
            push_char(&mut out, ',');
            push_char(&mut out, ' ');
        }
        let ghost after_sep = out@;
        let merged = i + 1 < n && match (&items[i], &items[i + 1]) {
            (Item::Style(_), Item::Id(_)) => true,
            _ => false,
        };
        let ghost piece: Seq<char>;
        if merged {
            assert(rest[0] == iv[i as int] && rest[1] == iv[i + 1]);
            match (&items[i], &items[i + 1]) {
                (Item::Style(st), Item::Id(id)) => {
                    push_str(&mut out, st.as_str());
                    push_char(&mut out, '#');
                    push_str(&mut out, id.as_str());
                    proof {
                        piece = st@ + seq!['#'] + id@;
                        assert(out@ =~= after_sep + piece);
                    }
                },
                _ => {
                    proof {
                        piece = Seq::empty();
                    }
                },
            }
            assert(rest.subrange(2, rest.len() as int) =~= iv.skip(i + 2));
            assert(render_pieces(rest) == seq![piece] + render_pieces(iv.skip(i + 2)));
            i += 2;
        } else {
            push_item(&mut out, &items[i]);
            proof {
                piece = render_item(iv[i as int]);
            }
            assert(rest[0] == iv[i as int]);
            assert(rest.drop_first() =~= iv.skip(i + 1));
            assert(render_pieces(rest) == seq![piece] + render_pieces(iv.skip(i + 1)));
            i += 1;
        }
        proof {
            lemma_join_push(done, piece);
            assert(out@ == after_sep + piece);
            if done.len() == 0 {
                assert(after_sep == before);
                assert(out@ =~= seq!['['] + join(done.push(piece)));
            } else {
                assert(after_sep =~= before + seq![',', ' ']);
                assert(out@ =~= seq!['['] + join(done.push(piece)));
            }
            assert(done.push(piece) + render_pieces(iv.skip(i as int)) =~= done + (seq![piece]
                + render_pieces(iv.skip(i as int))));
            done = done.push(piece);
        }
    }
    assert(iv.skip(n as int) =~= Seq::<ItemView>::empty());
    assert(done =~= render_pieces(iv));
    push_char(&mut out, ']');
    assert(out@ =~= render_line(iv));
    Ok(out)
}

} // verus!
