//! Locate requirement blocks via acdc, then re-scan their attribute lines.
//!
//! acdc's outline gives every delimited block with its style and the lines
//! of its delimiters. It does not carry the attribute lines above a block as
//! part of the block, so those are recovered by scanning the run of `[...]`
//! lines immediately above the opening delimiter; the block itself is never
//! reserialized.
use vstd::prelude::*;
use vstd::string::StringSliceAdditionalSpecFns;
use vstd::utf8::*;

use crate::lines::{
    lemma_line_boundaries, lemma_line_table, lemma_table_monotone, line_table, line_table_of,
    table_view,
};
use crate::outline::{acdc_outline_of, BlockShape, DelimitedNode, Outline, OutlineNode, OutlineWarning};
use crate::quoting::{parse_items, parse_items_chars};
use crate::text::{
    decimal, push_decimal, chars_of, is_whitespace, is_ws, push_str, str_to_string, substr, trim,
    trim_bounds,
};
use crate::{items_view, AttrLine, Error, Item, ItemView, Record, Span};

pub use crate::quoting::{parse_attr_line, render_attr_line};

verus! {

/// The records of one file, as `extract` found them.
#[derive(Debug, Default, Clone)]
pub struct Extraction {
    pub file: String,
    pub records: Vec<Record>,
}

/// The style that marks a requirement block.
pub open spec fn req_word() -> Seq<char> {
    seq!['r', 'e', 'q', 'u', 'i', 'r', 'e', 'm', 'e', 'n', 't']
}

/// The only delimiter a requirement block may use.
pub open spec fn open_delim() -> Seq<char> {
    seq!['-', '-']
}

/// Whether a block's style is `requirement`.
pub open spec fn is_requirement_style(style: Option<String>) -> bool {
    match style {
        Some(s) => s@ == req_word(),
        None => false,
    }
}

/// A requirement block as the outline gives it: its shape and the 1-based
/// lines of its opening and closing delimiters.
pub type BlockRef = (BlockShape, Option<usize>, Option<usize>);

pub open spec fn block_ref(d: DelimitedNode) -> BlockRef {
    (d.shape, d.open_line, d.close_line)
}

/// Blocks inside which requirement blocks are looked for.
pub open spec fn descends(shape: BlockShape) -> bool {
    shape == BlockShape::Open || shape == BlockShape::Example
}

/// The name of a delimited block's kind: `open`, `example` or `other`.
pub open spec fn block_kind_text(shape: BlockShape) -> Seq<char> {
    match shape {
        BlockShape::Open => "open"@,
        BlockShape::Example => "example"@,
        _ => "other"@,
    }
}

/// The name of `d`'s kind: `open`, `example` or `other`.
pub fn block_kind(d: &DelimitedNode) -> (r: &'static str)
    ensures
        r@ == block_kind_text(d.shape),
{
    match d.shape {
        BlockShape::Open => "open",
        BlockShape::Example => "example",
        _ => "other",
    }
}

/// The requirement blocks of an outline in source order: sections and the
/// insides of open and example blocks are searched, a block comes before
/// the blocks nested in it.
pub open spec fn req_blocks(nodes: Seq<OutlineNode>) -> Seq<BlockRef>
    decreases nodes,
{
    if nodes.len() == 0 {
        Seq::empty()
    } else {
        let head = match nodes[0] {
            OutlineNode::Section(ch) => req_blocks(ch@),
            OutlineNode::Delimited(d) => (if is_requirement_style(d.style) {
                seq![block_ref(d)]
            } else {
                Seq::empty()
            }) + (if descends(d.shape) {
                req_blocks(d.children@)
            } else {
                Seq::empty()
            }),
            OutlineNode::Other => Seq::empty(),
        };
        head + req_blocks(nodes.drop_first())
    }
}

/// The text of line `k` of `b`.
pub open spec fn line_text(b: Seq<u8>, t: Seq<(int, int)>, k: int) -> Seq<char> {
    decode_utf8(b.subrange(t[k].0, t[k].1))
}

/// A line that reads `[...]` once trimmed.
pub open spec fn is_attr_text(c: Seq<char>) -> bool {
    let x = trim(c);
    x.len() > 0 && x[0] == '[' && x.last() == ']'
}

/// The first line of the run of attribute lines that ends right above line
/// `j`; `j` itself when the line above is not an attribute line.
pub open spec fn attr_top(b: Seq<u8>, t: Seq<(int, int)>, j: int) -> int
    decreases j,
{
    if j > 0 && is_attr_text(line_text(b, t, j - 1)) {
        attr_top(b, t, j - 1)
    } else {
        j
    }
}

/// The run above line `j` starts at or above it, and every line of the run
/// is an attribute line.
pub proof fn lemma_attr_top(b: Seq<u8>, t: Seq<(int, int)>, j: int)
    requires
        j >= 0,
    ensures
        0 <= attr_top(b, t, j) <= j,
        forall|k: int| attr_top(b, t, j) <= k < j ==> is_attr_text(#[trigger] line_text(b, t, k)),
        attr_top(b, t, j) == 0 || !is_attr_text(line_text(b, t, attr_top(b, t, j) - 1)),
    decreases j,
{
    if j > 0 && is_attr_text(line_text(b, t, j - 1)) {
        lemma_attr_top(b, t, j - 1);
    }
}

/// Characters that make up AsciiDoc block delimiters.
pub open spec fn delim_char(c: char) -> bool {
    c == '-' || c == '=' || c == '*' || c == '.' || c == '_' || c == '+' || c == '/'
}

/// A run of at least two equal delimiter characters.
pub open spec fn is_delimiter_text(c: Seq<char>) -> bool {
    &&& c.len() >= 2
    &&& delim_char(c[0])
    &&& forall|i: int| 0 <= i < c.len() ==> #[trigger] c[i] == c[0]
}

/// A delimiter line that starts with whitespace.
pub open spec fn indented_delimiter(c: Seq<char>) -> bool {
    c.len() > 0 && is_ws(c[0]) && is_delimiter_text(trim(c))
}

/// Items that carry the `requirement` style.
pub open spec fn has_requirement_style(items: Seq<ItemView>) -> bool {
    exists|i: int| 0 <= i < items.len() && #[trigger] items[i] == ItemView::Style(req_word())
}

/// Line `o` is an indented delimiter right below attribute lines whose
/// first line carries the `requirement` style.
pub open spec fn indented_requirement_at(b: Seq<u8>, t: Seq<(int, int)>, o: int) -> bool {
    &&& indented_delimiter(line_text(b, t, o))
    &&& attr_top(b, t, o) < o
    &&& has_requirement_style(parse_items(line_text(b, t, attr_top(b, t, o))))
}

/// Some requirement block of the text has an indented delimiter.
pub open spec fn indented_requirement(b: Seq<u8>, t: Seq<(int, int)>) -> bool {
    exists|o: int| 0 <= o < t.len() && #[trigger] indented_requirement_at(b, t, o)
}

/// The first id among `items`.
pub open spec fn first_id(items: Seq<ItemView>) -> Option<Seq<char>>
    decreases items.len(),
{
    if items.len() == 0 {
        None
    } else {
        match items[0] {
            ItemView::Id(s) => Some(s),
            _ => first_id(items.drop_first()),
        }
    }
}

/// The requirement block is a terminated `--` open block at column one,
/// with at least one attribute line above it whose first line names a
/// nonempty id.
pub open spec fn block_ok(b: Seq<u8>, t: Seq<(int, int)>, blk: BlockRef) -> bool {
    &&& blk.1 is Some
    &&& blk.2 is Some
    &&& 1 <= blk.1->0 < blk.2->0 <= t.len()
    &&& blk.0 == BlockShape::Open
    &&& trim(line_text(b, t, blk.1->0 - 1)) == open_delim()
    &&& !is_ws(line_text(b, t, blk.1->0 - 1)[0])
    &&& attr_top(b, t, blk.1->0 - 1) < blk.1->0 - 1
    &&& first_id(parse_items(line_text(b, t, attr_top(b, t, blk.1->0 - 1)))) matches Some(id)
        && id.len() > 0
}

/// acdc recovered from a delimited block left open until the end.
pub open spec fn has_unterminated(outline: Outline) -> bool {
    exists|i: int|
        0 <= i < outline.warnings@.len() && (#[trigger] outline.warnings@[i]).unterminated_block
}

/// Extraction rejects the text.
pub open spec fn extract_fails(b: Seq<u8>, outline: Outline) -> bool {
    let t = line_table(b);
    let blks = req_blocks(outline.blocks@);
    ||| has_unterminated(outline)
    ||| indented_requirement(b, t)
    ||| exists|i: int| 0 <= i < blks.len() && !block_ok(b, t, #[trigger] blks[i])
}

/// `l` is line `k` of `b`, parsed.
pub open spec fn attr_line_at(l: AttrLine, b: Seq<u8>, t: Seq<(int, int)>, k: int) -> bool {
    &&& l.start == t[k].0
    &&& l.end == t[k].1
    &&& encode_utf8(l.raw@) == b.subrange(t[k].0, t[k].1)
    &&& items_view(l.items@) == parse_items(l.raw@)
}

/// `r` is the record of requirement block `blk` of file `file` with bytes `b`.
pub open spec fn record_at(
    r: Record,
    file: Seq<char>,
    b: Seq<u8>,
    t: Seq<(int, int)>,
    blk: BlockRef,
) -> bool {
    let o = blk.1->0 - 1;
    let c = blk.2->0 - 1;
    let f = attr_top(b, t, o);
    &&& r.file@ == file
    &&& first_id(parse_items(line_text(b, t, f))) == Some(r.id@)
    &&& r.span.start == t[f].0
    &&& r.span.end == t[c].1
    &&& r.attr_lines@.len() == o - f
    &&& forall|m: int| 0 <= m < o - f ==> attr_line_at(#[trigger] r.attr_lines@[m], b, t, f + m)
    &&& r.delim@ == open_delim()
    &&& encode_utf8(r.body_raw@) == b.subrange(t[o + 1].0, t[c].0)
}

/// What holds of every record `extract` returns, whatever the parser saw:
/// it names the file, has a nonempty id and the `--` delimiter, its span
/// lies in the text, its body and attribute lines are the bytes of the text
/// they claim to be, and the items are those of the attribute line.
pub open spec fn record_in_source(r: Record, file: Seq<char>, b: Seq<u8>) -> bool {
    &&& r.file@ == file
    &&& r.id@.len() > 0
    &&& r.delim@ == open_delim()
    &&& r.span.start <= r.span.end <= b.len()
    &&& exists|x: int, y: int|
        r.span.start <= x <= y <= r.span.end && encode_utf8(r.body_raw@) == b.subrange(x, y)
    &&& forall|m: int|
        0 <= m < r.attr_lines@.len() ==> {
            let l = #[trigger] r.attr_lines@[m];
            &&& r.span.start <= l.start <= l.end <= r.span.end
            &&& crate::text::boundaries(b, l.start as int, l.end as int)
            &&& encode_utf8(l.raw@) == b.subrange(l.start as int, l.end as int)
            &&& items_view(l.items@) == parse_items(l.raw@)
        }
}

/// Every record of a well-formed block lies in the source.
pub proof fn lemma_record_in_source(r: Record, file: Seq<char>, b: Seq<u8>, blk: BlockRef)
    requires
        valid_utf8(b),
        block_ok(b, line_table(b), blk),
        record_at(r, file, b, line_table(b), blk),
    ensures
        record_in_source(r, file, b),
{
    let t = line_table(b);
    lemma_line_table(b);
    let o = blk.1->0 - 1;
    let c = blk.2->0 - 1;
    let f = attr_top(b, t, o);
    lemma_attr_top(b, t, o);
    let items = parse_items(line_text(b, t, f));
    assert(first_id(items) == Some(r.id@));
    lemma_table_monotone(b, t, f, c);
    lemma_table_monotone(b, t, o + 1, c);
    lemma_table_monotone(b, t, f, o + 1);
    assert(r.span.start <= t[o + 1].0 <= t[c].0 <= r.span.end);
    assert forall|m: int| 0 <= m < r.attr_lines@.len() implies {
        let l = #[trigger] r.attr_lines@[m];
        &&& r.span.start <= l.start <= l.end <= r.span.end
        &&& crate::text::boundaries(b, l.start as int, l.end as int)
        &&& encode_utf8(l.raw@) == b.subrange(l.start as int, l.end as int)
        &&& items_view(l.items@) == parse_items(l.raw@)
    } by {
        assert(attr_line_at(r.attr_lines@[m], b, t, f + m));
        lemma_line_boundaries(b, f + m);
        lemma_table_monotone(b, t, f, f + m);
        lemma_table_monotone(b, t, f + m, c);
    }
}

/// Whether `s` is `requirement`.
pub fn is_requirement_word(s: &str) -> (r: bool)
    ensures
        r == (s@ == req_word()),
{
    let v = chars_of(s);
    let r = v.len() == 11 && v[0] == 'r' && v[1] == 'e' && v[2] == 'q' && v[3] == 'u' && v[4]
        == 'i' && v[5] == 'r' && v[6] == 'e' && v[7] == 'm' && v[8] == 'e' && v[9] == 'n' && v[10]
        == 't';
    proof {
        if r {
            assert(v@ =~= req_word());
        } else if v@ == req_word() {
            assert(v@[0] == 'r');
        }
    }
    r
}

/// Append the requirement blocks of `nodes` to `out`, in source order.
pub fn collect_blocks(nodes: &Vec<OutlineNode>, out: &mut Vec<BlockRef>)
    ensures
        final(out)@ == old(out)@ + req_blocks(nodes@),
    decreases nodes@,
{
    let mut i: usize = 0;
    assert(nodes@.skip(0) =~= nodes@);
    assert(old(out)@ + req_blocks(nodes@) =~= out@ + req_blocks(nodes@.skip(0)));
    while i < nodes.len()
        invariant
            i <= nodes@.len(),
            old(out)@ + req_blocks(nodes@) == out@ + req_blocks(nodes@.skip(i as int)),
        decreases nodes@.len() - i,
    {
        let ghost rest = nodes@.skip(i as int);
        assert(rest[0] == nodes@[i as int]);
        assert(rest.drop_first() =~= nodes@.skip(i + 1));
        let ghost before = out@;
        match &nodes[i] {
            OutlineNode::Section(ch) => {
                assert(decreases_to!(nodes@ => ch@));
                collect_blocks(ch, out);
            },
            OutlineNode::Delimited(d) => {
                let is_req = match &d.style {
                    Some(s) => is_requirement_word(s.as_str()),
                    None => false,
                };
                if is_req {
                    out.push((d.shape, d.open_line, d.close_line));
                }
                if d.shape == BlockShape::Open || d.shape == BlockShape::Example {
                    assert(decreases_to!(nodes@ => d.children@));
                    collect_blocks(&d.children, out);
                }
            },
            OutlineNode::Other => {},
        }
        assert(out@ + req_blocks(nodes@.skip(i + 1)) =~= before + req_blocks(rest));
        i += 1;
    }
    assert(nodes@.skip(nodes@.len() as int) =~= Seq::<OutlineNode>::empty());
    assert(out@ + req_blocks(Seq::<OutlineNode>::empty()) =~= out@);
}

/// The table of `source` is `table`.
pub open spec fn table_of(source: &str, table: Seq<(usize, usize)>) -> bool {
    table_view(table) == line_table(source.spec_bytes())
}

/// The text of line `k`.
pub fn line_str<'a>(source: &'a str, table: &Vec<(usize, usize)>, k: usize) -> (r: &'a str)
    requires
        table_of(source, table@),
        k < table@.len(),
    ensures
        r@ == line_text(source.spec_bytes(), line_table(source.spec_bytes()), k as int),
        r.spec_bytes() == source.spec_bytes().subrange(table@[k as int].0 as int, table@[k as int].1 as int),
{
    let ghost b = source.spec_bytes();
    proof {
        encode_utf8_valid_utf8(source@);
        assert(table_view(table@)[k as int] == (table@[k as int].0 as int, table@[k as int].1 as int));
        lemma_line_boundaries(b, k as int);
    }
    let r = substr(source, table[k].0, table[k].1);
    proof {
        encode_utf8_decode_utf8(r@);
    }
    r
}

/// Whether line `k` is an attribute line.
pub fn is_attr_line(source: &str, table: &Vec<(usize, usize)>, k: usize) -> (r: bool)
    requires
        table_of(source, table@),
        k < table@.len(),
    ensures
        r == is_attr_text(line_text(source.spec_bytes(), line_table(source.spec_bytes()), k as int)),
{
    let v = chars_of(line_str(source, table, k));
    let (a, z) = trim_bounds(v.as_slice(), 0, v.len());
    assert(v@.subrange(0, v@.len() as int) =~= v@);
    a < z && v[a] == '[' && v[z - 1] == ']'
}

/// The first line of the run of attribute lines right above line `o`.
pub fn attr_top_of(source: &str, table: &Vec<(usize, usize)>, o: usize) -> (r: usize)
    requires
        table_of(source, table@),
        o < table@.len(),
    ensures
        r == attr_top(source.spec_bytes(), line_table(source.spec_bytes()), o as int),
{
    let ghost b = source.spec_bytes();
    let ghost t = line_table(b);
    let mut j = o;
    let mut more = if j > 0 {
        is_attr_line(source, table, j - 1)
    } else {
        false
    };
    while more
        invariant
            j <= o < table@.len(),
            table_of(source, table@),
            b == source.spec_bytes(),
            t == line_table(b),
            attr_top(b, t, o as int) == attr_top(b, t, j as int),
            more == (j > 0 && is_attr_text(line_text(b, t, j - 1))),
        decreases j,
    {
        assert(attr_top(b, t, j as int) == attr_top(b, t, j - 1));
        j -= 1;
        more = if j > 0 {
            is_attr_line(source, table, j - 1)
        } else {
            false
        };
    }
    j
}

/// Whether `v[a..z]` is a delimiter.
pub fn is_delimiter_chars(v: &[char], a: usize, z: usize) -> (r: bool)
    requires
        a <= z <= v@.len(),
    ensures
        r == is_delimiter_text(v@.subrange(a as int, z as int)),
{
    let ghost c = v@.subrange(a as int, z as int);
    if z - a < 2 {
        return false;
    }
    let d = v[a];
    if !(d == '-' || d == '=' || d == '*' || d == '.' || d == '_' || d == '+' || d == '/') {
        return false;
    }
    let mut i = a;
    while i < z
        invariant
            a <= i <= z <= v@.len(),
            c == v@.subrange(a as int, z as int),
            d == c[0],
            forall|j: int| 0 <= j < i - a ==> #[trigger] c[j] == d,
        decreases z - i,
    {
        if v[i] != d {
            assert(c[i - a] != c[0]);
            return false;
        }
        i += 1;
    }
    true
}

/// Whether some item is the `requirement` style.
pub fn has_requirement_style_in(items: &Vec<Item>) -> (r: bool)
    ensures
        r == has_requirement_style(items_view(items@)),
{
    let ghost iv = items_view(items@);
    let mut i: usize = 0;
    while i < items.len()
        invariant
            i <= items@.len() == iv.len(),
            iv == items_view(items@),
            forall|j: int| 0 <= j < i ==> #[trigger] iv[j] != ItemView::Style(req_word()),
        decreases items@.len() - i,
    {
        match &items[i] {
            Item::Style(st) => {
                if is_requirement_word(st.as_str()) {
                    assert(iv[i as int] == ItemView::Style(req_word()));
                    return true;
                }
            },
            _ => {},
        }
        assert(iv[i as int] != ItemView::Style(req_word()));
        i += 1;
    }
    false
}

/// The first id among `items`.
pub fn first_id_in(items: &Vec<Item>) -> (r: Option<String>)
    ensures
        match r {
            Some(s) => first_id(items_view(items@)) == Some(s@),
            None => first_id(items_view(items@)) is None,
        },
{
    let ghost iv = items_view(items@);
    let mut i: usize = 0;
    assert(iv.skip(0) =~= iv);
    while i < items.len()
        invariant
            i <= items@.len() == iv.len(),
            iv == items_view(items@),
            first_id(iv) == first_id(iv.skip(i as int)),
        decreases items@.len() - i,
    {
        let ghost rest = iv.skip(i as int);
        assert(rest[0] == iv[i as int]);
        assert(rest.drop_first() =~= iv.skip(i + 1));
        match &items[i] {
            Item::Id(id) => {
                return Some(id.clone());
            },
            _ => {},
        }
        i += 1;
    }
    assert(iv.skip(items@.len() as int) =~= Seq::<ItemView>::empty());
    None
}

/// Whether line `o` is an indented delimiter under a requirement header.
pub fn indented_requirement_check(source: &str, table: &Vec<(usize, usize)>, o: usize) -> (r: bool)
    requires
        table_of(source, table@),
        o < table@.len(),
    ensures
        r == indented_requirement_at(source.spec_bytes(), line_table(source.spec_bytes()), o as int),
{
    let ghost b = source.spec_bytes();
    let ghost t = line_table(b);
    let v = chars_of(line_str(source, table, o));
    if v.len() == 0 || !is_whitespace(v[0]) {
        return false;
    }
    let (a, z) = trim_bounds(v.as_slice(), 0, v.len());
    assert(v@.subrange(0, v@.len() as int) =~= v@);
    if !is_delimiter_chars(v.as_slice(), a, z) {
        return false;
    }
    let top = attr_top_of(source, table, o);
    if top >= o {
        return false;
    }
    let header = chars_of(line_str(source, table, top));
    let items = parse_items_chars(header.as_slice());
    has_requirement_style_in(&items)
}

/// `<file>: line <n>`.
pub open spec fn at_line_text(file: Seq<char>, line: int) -> Seq<char> {
    file + ": line "@ + decimal(line as nat)
}

/// The message of a delimited block left open, whose opening delimiter is
/// on 1-based line `line` when known.
pub open spec fn unterminated_text(file: Seq<char>, t: Seq<(int, int)>, line: Option<usize>) -> Seq<
    char,
> {
    (match line {
        Some(n) => at_line_text(file, n as int) + if 1 <= n <= t.len() {
            " (byte offset "@ + decimal(t[n - 1].0 as nat) + ")"@
        } else {
            Seq::empty()
        },
        None => file + ": line unknown (byte offset unknown)"@,
    }) + ": unterminated delimited block; add its closing delimiter on a line of its own"@
}

/// `<file>: <what>`.
pub open spec fn parse_error_text(file: Seq<char>, what: Seq<char>) -> Seq<char> {
    file + ": "@ + what
}

/// `<file>: line <n>: <what>`.
pub open spec fn line_error_text(file: Seq<char>, line: int, what: Seq<char>) -> Seq<char> {
    at_line_text(file, line) + ": "@ + what
}

/// `<file>: line <n>`.
pub fn at_line(file: &str, line: usize) -> (r: String)
    ensures
        r@ == at_line_text(file@, line as int),
{
    let mut m = str_to_string(file);
    push_str(&mut m, ": line ");
    push_decimal(&mut m, line);
    m
}

/// The error for a delimited block left open.
pub fn unterminated_error(file: &str, table: &Vec<(usize, usize)>, line: Option<usize>) -> (r: Error)
    ensures
        r matches Error::Parse(m) && m@ == unterminated_text(file@, table_view(table@), line),
{
    let mut m = match line {
        Some(n) => {
            let mut m = at_line(file, n);
            if n >= 1 && n <= table.len() {
                push_str(&mut m, " (byte offset ");
                push_decimal(&mut m, table[n - 1].0);
                push_str(&mut m, ")");
            }
            assert(m@ =~= match line {
                Some(n) => at_line_text(file@, n as int) + if 1 <= n <= table_view(table@).len() {
                    " (byte offset "@ + decimal(table_view(table@)[n - 1].0 as nat) + ")"@
                } else {
                    Seq::empty()
                },
                None => file@ + ": line unknown (byte offset unknown)"@,
            });
            m
        },
        None => {
            let mut m = str_to_string(file);
            push_str(&mut m, ": line unknown (byte offset unknown)");
            m
        },
    };
    push_str(&mut m, ": unterminated delimited block; add its closing delimiter on a line of its own");
    Error::Parse(m)
}

/// `<file>: <what>` as a parse error.
pub fn parse_error(file: &str, what: &str) -> (r: Error)
    ensures
        r matches Error::Parse(m) && m@ == parse_error_text(file@, what@),
{
    let mut m = str_to_string(file);
    push_str(&mut m, ": ");
    push_str(&mut m, what);
    Error::Parse(m)
}

/// `<file>: line <n>: <what>` as a parse error.
pub fn line_error(file: &str, line: usize, what: &str) -> (r: Error)
    ensures
        r matches Error::Parse(m) && m@ == line_error_text(file@, line as int, what@),
{
    let mut m = at_line(file, line);
    push_str(&mut m, ": ");
    push_str(&mut m, what);
    Error::Parse(m)
}

/// Why requirement block `blk` is malformed, checked in order: its
/// opening delimiter, its closing one, the delimiter text, indentation,
/// attribute lines and id anchor.
pub open spec fn block_refusal(file: Seq<char>, b: Seq<u8>, t: Seq<(int, int)>, blk: BlockRef) -> Seq<
    char,
> {
    match blk.1 {
        None => parse_error_text(file, "requirement block without an opening delimiter"@),
        Some(op) => match blk.2 {
            None => unterminated_text(file, t, Some(op)),
            Some(cl) => if !(1 <= op < cl <= t.len()) {
                unterminated_text(file, t, Some(op))
            } else {
                let o = op - 1;
                let lt = line_text(b, t, o);
                if !(blk.0 == BlockShape::Open && trim(lt) == open_delim()) {
                    line_error_text(
                        file,
                        op as int,
                        "requirement block delimited by `"@ + lt
                            + "`; only `--` open blocks may carry requirements"@,
                    )
                } else if is_ws(lt[0]) {
                    line_error_text(
                        file,
                        op as int,
                        "requirement delimiter is indented; requirement blocks start at column 1"@,
                    )
                } else if attr_top(b, t, o) >= o {
                    line_error_text(file, op as int, "requirement block without attribute lines"@)
                } else {
                    let f = attr_top(b, t, o);
                    match first_id(parse_items(line_text(b, t, f))) {
                        None => line_error_text(
                            file,
                            f + 1,
                            "requirement block without an id anchor"@,
                        ),
                        Some(id) => line_error_text(
                            file,
                            f + 1,
                            "requirement block with an empty id anchor"@,
                        ),
                    }
                }
            },
        },
    }
}

/// The first warning from `i` on about a block left open, or `-1`.
pub open spec fn first_unterminated(ws: Seq<OutlineWarning>, i: int) -> int
    decreases ws.len() - i,
{
    if i < 0 || i >= ws.len() {
        -1
    } else if ws[i].unterminated_block {
        i
    } else {
        first_unterminated(ws, i + 1)
    }
}

/// The first line from `o` on that is an indented requirement delimiter,
/// or `-1`.
pub open spec fn first_indented(b: Seq<u8>, t: Seq<(int, int)>, o: int) -> int
    decreases t.len() - o,
{
    if o < 0 || o >= t.len() {
        -1
    } else if indented_requirement_at(b, t, o) {
        o
    } else {
        first_indented(b, t, o + 1)
    }
}

/// The first malformed block from `i` on, or `-1`.
pub open spec fn first_bad_block(b: Seq<u8>, t: Seq<(int, int)>, blks: Seq<BlockRef>, i: int) -> int
    decreases blks.len() - i,
{
    if i < 0 || i >= blks.len() {
        -1
    } else if !block_ok(b, t, blks[i]) {
        i
    } else {
        first_bad_block(b, t, blks, i + 1)
    }
}

/// Why extraction rejects the text: the first block acdc saw left open,
/// else the first indented requirement delimiter, else the first malformed
/// requirement block.
pub open spec fn extract_refusal(file: Seq<char>, b: Seq<u8>, outline: Outline) -> Seq<char> {
    let t = line_table(b);
    let w = first_unterminated(outline.warnings@, 0);
    if w >= 0 {
        unterminated_text(file, t, outline.warnings@[w].line)
    } else {
        let o = first_indented(b, t, 0);
        if o >= 0 {
            line_error_text(
                file,
                o + 1,
                "requirement delimiter is indented; requirement blocks start at column 1"@,
            )
        } else {
            let blks = req_blocks(outline.blocks@);
            block_refusal(file, b, t, blks[first_bad_block(b, t, blks, 0)])
        }
    }
}

/// The record of requirement block `blk`, or why the block is malformed.
pub fn build_record(file: &str, source: &str, table: &Vec<(usize, usize)>, blk: BlockRef) -> (r:
    Result<Record, Error>)
    requires
        table_of(source, table@),
    ensures
        match r {
            Ok(rec) => block_ok(source.spec_bytes(), line_table(source.spec_bytes()), blk)
                && record_at(rec, file@, source.spec_bytes(), line_table(source.spec_bytes()), blk),
            Err(e) => !block_ok(source.spec_bytes(), line_table(source.spec_bytes()), blk) && (
            e matches Error::Parse(m) && m@ == block_refusal(
                file@,
                source.spec_bytes(),
                line_table(source.spec_bytes()),
                blk,
            )),
        },
{
    let ghost b = source.spec_bytes();
    let ghost t = line_table(b);
    proof {
        lemma_line_table(b);
        encode_utf8_valid_utf8(source@);
        assert(table_view(table@).len() == table@.len());
    }
    let (shape, open, close) = blk;
    let n = table.len();
    let open = match open {
        Some(o) => o,
        None => {
            return Err(parse_error(file, "requirement block without an opening delimiter"));
        },
    };
    let close = match close {
        Some(c) => c,
        None => {
            return Err(unterminated_error(file, table, Some(open)));
        },
    };
    if !(1 <= open && open < close && close <= n) {
        return Err(unterminated_error(file, table, Some(open)));
    }
    let o = open - 1;
    let c = close - 1;
    let line = line_str(source, table, o);
    let v = chars_of(line);
    let (a, z) = trim_bounds(v.as_slice(), 0, v.len());
    assert(v@.subrange(0, v@.len() as int) =~= v@);
    let is_open = match shape {
        BlockShape::Open => true,
        _ => false,
    };
    if !(is_open && z - a == 2 && v[a] == '-' && v[a + 1] == '-') {
        proof {
            assert(v@ == line_text(b, t, o as int));
            assert(trim(v@) == v@.subrange(a as int, z as int));
            if block_ok(b, t, blk) {
                assert(blk.0 == BlockShape::Open);
                assert(is_open);
                let d = v@.subrange(a as int, z as int);
                assert(d == open_delim());
                assert(d.len() == 2);
                assert(d[0] == v@[a as int]);
                assert(d[1] == v@[a + 1]);
                assert(false);
            }
        }
        let mut what = str_to_string("requirement block delimited by `");
        push_str(&mut what, line);
        push_str(&mut what, "`; only `--` open blocks may carry requirements");
        return Err(line_error(file, open, what.as_str()));
    }
    assert(v@.subrange(a as int, z as int) =~= open_delim());
    if is_whitespace(v[0]) {
        return Err(line_error(
            file,
            open,
            "requirement delimiter is indented; requirement blocks start at column 1",
        ));
    }
    let f = attr_top_of(source, table, o);
    proof {
        lemma_attr_top(b, t, o as int);
    }
    if f >= o {
        return Err(line_error(file, open, "requirement block without attribute lines"));
    }
    let mut attr_lines: Vec<AttrLine> = Vec::new();
    let mut m = f;
    while m < o
        invariant
            f <= m <= o < c < n == table@.len(),
            table_of(source, table@),
            b == source.spec_bytes(),
            t == line_table(b),
            valid_utf8(b),
            attr_lines@.len() == m - f,
            forall|j: int| 0 <= j < m - f ==> attr_line_at(#[trigger] attr_lines@[j], b, t, f + j),
        decreases o - m,
    {
        proof {
            lemma_line_boundaries(b, m as int);
            assert(table_view(table@)[m as int] == (table@[m as int].0 as int, table@[m as int].1 as int));
        }
        let l = parse_attr_line(source, table[m].0, table[m].1);
        attr_lines.push(l);
        m += 1;
    }
    proof {
        assert(attr_line_at(attr_lines@[0], b, t, f as int));
        assert(f + 0 == f);
        let raw = attr_lines@[0].raw@;
        encode_utf8_decode_utf8(raw);
        assert(raw == line_text(b, t, f as int));
    }
    let id = match first_id_in(&attr_lines[0].items) {
        Some(id) => id,
        None => {
            return Err(line_error(file, f + 1, "requirement block without an id anchor"));
        },
    };
    if id.as_str().is_empty() {
        return Err(line_error(file, f + 1, "requirement block with an empty id anchor"));
    }
    proof {
        lemma_line_boundaries(b, (o + 1) as int);
        lemma_line_boundaries(b, c as int);
        lemma_table_monotone(b, t, (o + 1) as int, c as int);
        lemma_table_monotone(b, t, f as int, c as int);
        assert(table_view(table@)[(o + 1) as int] == (table@[o + 1].0 as int, table@[o + 1].1 as int));
        assert(table_view(table@)[c as int] == (table@[c as int].0 as int, table@[c as int].1 as int));
        assert(table_view(table@)[f as int] == (table@[f as int].0 as int, table@[f as int].1 as int));
    }
    let body = substr(source, table[o + 1].0, table[c].0);
    let mut delim = String::new();
    crate::text::push_char(&mut delim, '-');
    crate::text::push_char(&mut delim, '-');
    assert(delim@ =~= open_delim());
    let rec = Record {
        file: str_to_string(file),
        id,
        span: Span { start: table[f].0, end: table[c].1 },
        attr_lines,
        delim,
        body_raw: str_to_string(body),
    };
    Ok(rec)
}

/// The byte span of a record.
pub open spec fn span_view(r: Record) -> (int, int) {
    (r.span.start as int, r.span.end as int)
}

/// The byte span of the record of requirement block `blk`: its first
/// attribute line through its closing delimiter line.
pub open spec fn span_of(b: Seq<u8>, t: Seq<(int, int)>, blk: BlockRef) -> (int, int) {
    (t[attr_top(b, t, blk.1->0 - 1)].0, t[blk.2->0 - 1].1)
}

/// Span `n` comes after span `a` in the text: after its end, or nested
/// inside it.
pub open spec fn follows_span(a: (int, int), n: (int, int)) -> bool {
    a.1 <= n.0 || (a.0 < n.0 && n.1 <= a.1)
}

/// The blocks' records come in source order.
pub open spec fn blocks_in_order(b: Seq<u8>, t: Seq<(int, int)>, blks: Seq<BlockRef>) -> bool {
    forall|q: int|
        0 <= q && q + 1 < blks.len() ==> follows_span(span_of(b, t, #[trigger] blks[q]), span_of(b, t, blks[q + 1]))
}

/// The records come in source order: each starts after the end of the one
/// before it, or inside it when nested in it.
pub open spec fn records_in_order(rs: Seq<Record>) -> bool {
    forall|q: int| 0 <= q && q + 1 < rs.len() ==> follows_span(span_view(#[trigger] rs[q]), span_view(rs[q + 1]))
}

/// `extract` given the outline acdc produced for `source`: every
/// requirement block, in source order, or the first reason the text is not
/// a well-formed set of requirement blocks.
pub fn extract_from_outline(file: &str, source: &str, outline: &Outline) -> (r: Result<
    Vec<Record>,
    Error,
>)
    ensures
        match r {
            Ok(rs) => records_of_outline(rs@, file@, source.spec_bytes(), *outline),
            Err(e) => e matches Error::Parse(m) && refusal_for_outline(
                m@,
                file@,
                source.spec_bytes(),
                *outline,
            ),
        },
{
    let ghost b = source.spec_bytes();
    let ghost t = line_table(b);
    let table = line_table_of(source);
    proof {
        lemma_line_table(b);
        assert(table_view(table@).len() == table@.len());
    }
    let mut w: usize = 0;
    while w < outline.warnings.len()
        invariant
            w <= outline.warnings@.len(),
            forall|j: int| 0 <= j < w ==> !(#[trigger] outline.warnings@[j]).unterminated_block,
            first_unterminated(outline.warnings@, 0) == first_unterminated(
                outline.warnings@,
                w as int,
            ),
            table_of(source, table@),
            b == source.spec_bytes(),
            t == line_table(b),
        decreases outline.warnings@.len() - w,
    {
        if outline.warnings[w].unterminated_block {
            assert(has_unterminated(*outline));
            return Err(unterminated_error(file, &table, outline.warnings[w].line));
        }
        w += 1;
    }
    let mut o: usize = 0;
    while o < table.len()
        invariant
            o <= table@.len() == t.len(),
            table_of(source, table@),
            b == source.spec_bytes(),
            t == line_table(b),
            forall|j: int| 0 <= j < o ==> !#[trigger] indented_requirement_at(b, t, j),
            first_unterminated(outline.warnings@, 0) == -1,
            first_indented(b, t, 0) == first_indented(b, t, o as int),
        decreases table@.len() - o,
    {
        if indented_requirement_check(source, &table, o) {
            assert(indented_requirement_at(b, t, o as int));
            return Err(line_error(
                file,
                o + 1,
                "requirement delimiter is indented; requirement blocks start at column 1",
            ));
        }
        o += 1;
    }
    let mut blocks: Vec<BlockRef> = Vec::new();
    collect_blocks(&outline.blocks, &mut blocks);
    assert(blocks@ =~= req_blocks(outline.blocks@));
    let mut records: Vec<Record> = Vec::new();
    let mut i: usize = 0;
    while i < blocks.len()
        invariant
            i <= blocks@.len(),
            blocks@ == req_blocks(outline.blocks@),
            table_of(source, table@),
            b == source.spec_bytes(),
            t == line_table(b),
            records@.len() == i,
            forall|j: int| 0 <= j < i ==> block_ok(b, t, #[trigger] blocks@[j]),
            first_unterminated(outline.warnings@, 0) == -1,
            first_indented(b, t, 0) == -1,
            first_bad_block(b, t, blocks@, 0) == first_bad_block(b, t, blocks@, i as int),
            forall|j: int| 0 <= j < i ==> record_at(#[trigger] records@[j], file@, b, t, blocks@[j]),
        decreases blocks@.len() - i,
    {
        match build_record(file, source, &table, blocks[i]) {
            Ok(rec) => {
                records.push(rec);
                assert(records@[i as int] == rec);
            },
            Err(e) => {
                assert(!block_ok(b, t, blocks@[i as int]));
                return Err(e);
            },
        }
        i += 1;
    }
    proof {
        assert(!extract_fails(b, *outline));
    }
    let mut j: usize = 0;
    while records.len() > 0 && j < records.len() - 1
        invariant
            !extract_fails(b, *outline),
            records@.len() == blocks@.len(),
            j < records@.len() || records@.len() == 0,
            blocks@ == req_blocks(outline.blocks@),
            b == source.spec_bytes(),
            t == line_table(b),
            forall|q: int| 0 <= q < blocks@.len() ==> block_ok(b, t, #[trigger] blocks@[q]),
            forall|q: int| 0 <= q < records@.len() ==> record_at(#[trigger] records@[q], file@, b, t, blocks@[q]),
            forall|q: int|
                0 <= q < j ==> follows_span(span_view(#[trigger] records@[q]), span_view(records@[q + 1])),
        decreases records@.len() - j,
    {
        let a = records[j].span;
        let n = records[j + 1].span;
        proof {
            assert(record_at(records@[j as int], file@, b, t, blocks@[j as int]));
            assert(record_at(records@[j + 1], file@, b, t, blocks@[j + 1]));
            assert(span_view(records@[j as int]) == span_of(b, t, blocks@[j as int]));
            assert(span_view(records@[j + 1]) == span_of(b, t, blocks@[j + 1]));
        }
        if !(a.end <= n.start || (a.start < n.start && n.end <= a.end)) {
            proof {
                assert(!follows_span(span_of(b, t, blocks@[j as int]), span_of(b, t, blocks@[j + 1])));
                assert(!blocks_in_order(b, t, blocks@));
            }
            return Err(parse_error(file, "requirement blocks are out of source order"));
        }
        j += 1;
    }
    proof {
        assert forall|q: int| 0 <= q && q + 1 < blocks@.len() implies follows_span(
            span_of(b, t, #[trigger] blocks@[q]),
            span_of(b, t, blocks@[q + 1]),
        ) by {
            assert(record_at(records@[q], file@, b, t, blocks@[q]));
            assert(record_at(records@[q + 1], file@, b, t, blocks@[q + 1]));
            assert(follows_span(span_view(records@[q]), span_view(records@[q + 1])));
        }
        assert(records_in_order(records@));
    }
    Ok(records)
}

/// `rs` are the records of the requirement blocks of `outline`, one per
/// block and in its order, all well-formed in the text with bytes `b`.
pub open spec fn records_of_outline(rs: Seq<Record>, file: Seq<char>, b: Seq<u8>, outline: Outline) -> bool {
    &&& !extract_fails(b, outline)
    &&& blocks_in_order(b, line_table(b), req_blocks(outline.blocks@))
    &&& records_in_order(rs)
    &&& rs.len() == req_blocks(outline.blocks@).len()
    &&& forall|i: int|
        0 <= i < rs.len() ==> record_at(#[trigger] rs[i], file, b, line_table(b), req_blocks(outline.blocks@)[i])
}

/// `m` is why extraction refuses the text with bytes `b` when the parser
/// gives `outline`.
pub open spec fn refusal_for_outline(m: Seq<char>, file: Seq<char>, b: Seq<u8>, outline: Outline) -> bool {
    ||| extract_fails(b, outline) && m == extract_refusal(file, b, outline)
    ||| !extract_fails(b, outline) && !blocks_in_order(b, line_table(b), req_blocks(outline.blocks@))
        && m == parse_error_text(file, order_refusal())
}

/// Why extraction refuses blocks the parser gave out of source order.
pub open spec fn order_refusal() -> Seq<char> {
    "requirement blocks are out of source order"@
}

/// The records `extract` can give for `file` with bytes `b`: those of the
/// requirement blocks of some outline of the text, each lying in the text.
pub open spec fn extracted(live: Seq<Record>, file: Seq<char>, b: Seq<u8>) -> bool {
    &&& all_in_source(live, file, b)
    &&& exists|o: Outline| #[trigger] records_of_outline(live, file, b, o)
}

/// Every record lies in the text with bytes `b` of `file`.
pub open spec fn all_in_source(live: Seq<Record>, file: Seq<char>, b: Seq<u8>) -> bool {
    forall|i: int| 0 <= i < live.len() ==> record_in_source(#[trigger] live[i], file, b)
}

/// Why extracting `file` with bytes `b` can fail: the parser's own message,
/// or why the blocks of some outline of the text are refused.
pub open spec fn refused_text(m: Seq<char>, file: Seq<char>, b: Seq<u8>) -> bool {
    ||| exists|what: Seq<char>| m == #[trigger] parse_error_text(file, what)
    ||| exists|o: Outline| #[trigger] refusal_for_outline(m, file, b, o)
}

/// `extract`: every requirement block in `source`, in source order.
///
/// The records are those of the requirement blocks of the outline the parser
/// produced, and every one describes bytes of `source` inside its span; an
/// error is the parser's own message or why that outline's blocks are
/// refused. A source with a requirement delimiter indented from column one
/// is refused whatever the parser made of it.
pub fn extract(file: &str, source: &str) -> (r: Result<Vec<Record>, Error>)
    ensures
        indented_requirement(source.spec_bytes(), line_table(source.spec_bytes())) ==> r is Err,
        match r {
            Ok(rs) => extracted(rs@, file@, source.spec_bytes()) && records_in_order(rs@),
            Err(e) => e matches Error::Parse(m) && refused_text(m@, file@, source.spec_bytes()),
        },
{
    match acdc_outline_of(source) {
        Ok(outline) => {
            let r = extract_from_outline(file, source, &outline);
            proof {
                if r is Ok {
                    let rs = r->Ok_0;
                    let blks = req_blocks(outline.blocks@);
                    assert forall|i: int| 0 <= i < rs@.len() implies record_in_source(
                        #[trigger] rs@[i],
                        file@,
                        source.spec_bytes(),
                    ) by {
                        assert(!extract_fails(source.spec_bytes(), outline));
                        assert(block_ok(source.spec_bytes(), line_table(source.spec_bytes()), blks[i]));
                        encode_utf8_valid_utf8(source@);
                        lemma_record_in_source(rs@[i], file@, source.spec_bytes(), blks[i]);
                    }
                    assert(records_of_outline(rs@, file@, source.spec_bytes(), outline));
                    assert(extracted(rs@, file@, source.spec_bytes()));
                } else {
                    let m = r->Err_0->Parse_0;
                    assert(refusal_for_outline(m@, file@, source.spec_bytes(), outline));
                    assert(refused_text(m@, file@, source.spec_bytes()));
                }
            }
            r
        },
        Err(message) => {
            let e = parse_error(file, message.as_str());
            proof {
                let m = e->Parse_0;
                assert(m@ == parse_error_text(file@, message@));
                assert(refused_text(m@, file@, source.spec_bytes()));
            }
            Err(e)
        },
    }
}

} // verus!

verus! {

/// `d` is a delimited block of the outline `nodes`: at its top, inside a
/// section, or inside an open or example block, at any depth.
pub open spec fn occurs(nodes: Seq<OutlineNode>, d: DelimitedNode) -> bool
    decreases nodes,
{
    if nodes.len() == 0 {
        false
    } else {
        (match nodes[0] {
            OutlineNode::Section(ch) => occurs(ch@, d),
            OutlineNode::Delimited(x) => x == d || ((x.shape == BlockShape::Open || x.shape
                == BlockShape::Example) && occurs(x.children@, d)),
            OutlineNode::Other => false,
        }) || occurs(nodes.drop_first(), d)
    }
}

/// `d` carries the `requirement` style.
pub open spec fn styled_requirement(d: DelimitedNode) -> bool {
    d.style matches Some(s) && s@ == "requirement"@
}

/// The `requirement` style, spelled out.
proof fn lemma_styled_requirement(d: DelimitedNode)
    ensures
        styled_requirement(d) == is_requirement_style(d.style),
{
    reveal_strlit("requirement");
    assert("requirement"@ =~= req_word());
}

proof fn lemma_styled_requirement_all()
    ensures
        forall|d: DelimitedNode| #[trigger] styled_requirement(d) == is_requirement_style(d.style),
{
    assert forall|d: DelimitedNode| #[trigger] styled_requirement(d) == is_requirement_style(d.style) by {
        lemma_styled_requirement(d);
    }
}

pub(crate) proof fn lemma_contains_concat<A>(a: Seq<A>, b: Seq<A>, x: A)
    ensures
        (a + b).contains(x) <==> a.contains(x) || b.contains(x),
{
    if (a + b).contains(x) {
        let q = choose|q: int| 0 <= q < (a + b).len() && (a + b)[q] == x;
        if q < a.len() {
            assert(a[q] == x);
        } else {
            assert(b[q - a.len()] == x);
        }
    }
    if a.contains(x) {
        let q = choose|q: int| 0 <= q < a.len() && a[q] == x;
        assert((a + b)[q] == x);
    }
    if b.contains(x) {
        let q = choose|q: int| 0 <= q < b.len() && b[q] == x;
        assert((a + b)[q + a.len()] == x);
    }
}

/// Every requirement block of the outline is found.
proof fn lemma_req_blocks_complete(nodes: Seq<OutlineNode>, d: DelimitedNode)
    requires
        occurs(nodes, d),
        styled_requirement(d),
    ensures
        req_blocks(nodes).contains(block_ref(d)),
    decreases nodes,
{
    lemma_styled_requirement_all();
    let head = match nodes[0] {
        OutlineNode::Section(ch) => req_blocks(ch@),
        OutlineNode::Delimited(x) => (if is_requirement_style(x.style) {
            seq![block_ref(x)]
        } else {
            Seq::empty()
        }) + (if descends(x.shape) {
            req_blocks(x.children@)
        } else {
            Seq::empty()
        }),
        OutlineNode::Other => Seq::empty(),
    };
    assert(req_blocks(nodes) == head + req_blocks(nodes.drop_first()));
    lemma_contains_concat(head, req_blocks(nodes.drop_first()), block_ref(d));
    if occurs(nodes.drop_first(), d) {
        lemma_req_blocks_complete(nodes.drop_first(), d);
    } else {
        match nodes[0] {
            OutlineNode::Section(ch) => {
                assert(decreases_to!(nodes => ch@));
                lemma_req_blocks_complete(ch@, d);
            },
            OutlineNode::Delimited(x) => {
                let a = if is_requirement_style(x.style) {
                    seq![block_ref(x)]
                } else {
                    Seq::<BlockRef>::empty()
                };
                let c = if descends(x.shape) {
                    req_blocks(x.children@)
                } else {
                    Seq::<BlockRef>::empty()
                };
                lemma_contains_concat(a, c, block_ref(d));
                if x == d {
                    assert(a[0] == block_ref(d));
                } else {
                    assert(decreases_to!(nodes => x.children@));
                    lemma_req_blocks_complete(x.children@, d);
                }
            },
            OutlineNode::Other => {},
        }
    }
}

/// Every block found is a requirement block of the outline.
proof fn lemma_req_blocks_sound(nodes: Seq<OutlineNode>, b: BlockRef)
    requires
        req_blocks(nodes).contains(b),
    ensures
        exists|d: DelimitedNode| #[trigger] occurs(nodes, d) && styled_requirement(d) && block_ref(d) == b,
    decreases nodes,
{
    lemma_styled_requirement_all();
    let head = match nodes[0] {
        OutlineNode::Section(ch) => req_blocks(ch@),
        OutlineNode::Delimited(x) => (if is_requirement_style(x.style) {
            seq![block_ref(x)]
        } else {
            Seq::empty()
        }) + (if descends(x.shape) {
            req_blocks(x.children@)
        } else {
            Seq::empty()
        }),
        OutlineNode::Other => Seq::empty(),
    };
    assert(req_blocks(nodes) == head + req_blocks(nodes.drop_first()));
    lemma_contains_concat(head, req_blocks(nodes.drop_first()), b);
    if req_blocks(nodes.drop_first()).contains(b) {
        lemma_req_blocks_sound(nodes.drop_first(), b);
        let d = choose|d: DelimitedNode| #[trigger] occurs(nodes.drop_first(), d) && styled_requirement(d)
            && block_ref(d) == b;
        assert(occurs(nodes, d));
    } else {
        match nodes[0] {
            OutlineNode::Section(ch) => {
                assert(decreases_to!(nodes => ch@));
                lemma_req_blocks_sound(ch@, b);
                let d = choose|d: DelimitedNode| #[trigger] occurs(ch@, d) && styled_requirement(d)
                    && block_ref(d) == b;
                assert(occurs(nodes, d));
            },
            OutlineNode::Delimited(x) => {
                let a = if is_requirement_style(x.style) {
                    seq![block_ref(x)]
                } else {
                    Seq::<BlockRef>::empty()
                };
                let c = if descends(x.shape) {
                    req_blocks(x.children@)
                } else {
                    Seq::<BlockRef>::empty()
                };
                lemma_contains_concat(a, c, b);
                if a.contains(b) {
                    assert(occurs(nodes, x));
                } else {
                    assert(decreases_to!(nodes => x.children@));
                    lemma_req_blocks_sound(x.children@, b);
                    let d = choose|d: DelimitedNode| #[trigger] occurs(x.children@, d)
                        && styled_requirement(d) && block_ref(d) == b;
                    assert(occurs(nodes, d));
                }
            },
            OutlineNode::Other => {},
        }
    }
}

/// `r` is the record of some block styled `requirement` of the outline.
pub open spec fn of_some_requirement(r: Record, file: Seq<char>, b: Seq<u8>, outline: Outline) -> bool {
    exists|x: DelimitedNode|
        occurs(outline.blocks@, x) && styled_requirement(x) && #[trigger] record_at(
            r,
            file,
            b,
            line_table(b),
            block_ref(x),
        )
}

/// Law: extraction finds every requirement block the parser placed in the
/// document, at the top, inside sections, or nested in open or example
/// blocks: given the records of an outline, each delimited block styled
/// `requirement` anywhere in it has a record, and each record is the record
/// of such a block.
pub proof fn lemma_extract_finds_every_requirement(
    rs: Seq<Record>,
    file: Seq<char>,
    b: Seq<u8>,
    outline: Outline,
    d: DelimitedNode,
)
    requires
        records_of_outline(rs, file, b, outline),
    ensures
        occurs(outline.blocks@, d) && styled_requirement(d) ==> exists|i: int|
            0 <= i < rs.len() && #[trigger] record_at(rs[i], file, b, line_table(b), block_ref(d)),
        forall|i: int| 0 <= i < rs.len() ==> of_some_requirement(#[trigger] rs[i], file, b, outline),
{
    let blks = req_blocks(outline.blocks@);
    if occurs(outline.blocks@, d) && styled_requirement(d) {
        lemma_req_blocks_complete(outline.blocks@, d);
        let i = choose|i: int| 0 <= i < blks.len() && blks[i] == block_ref(d);
        assert(record_at(rs[i], file, b, line_table(b), blks[i]));
    }
    assert forall|i: int| 0 <= i < rs.len() implies of_some_requirement(#[trigger] rs[i], file, b, outline) by {
        assert(blks.contains(blks[i]));
        lemma_req_blocks_sound(outline.blocks@, blks[i]);
        let x = choose|x: DelimitedNode| #[trigger] occurs(outline.blocks@, x) && styled_requirement(x)
            && block_ref(x) == blks[i];
        assert(record_at(rs[i], file, b, line_table(b), block_ref(x)));
    }
}

} // verus!
