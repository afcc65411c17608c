//! Human-oriented display of one requirement record: what the display
//! shows, section by section, and where a record sits in its file.
use vstd::prelude::*;
use vstd::string::StringSliceAdditionalSpecFns;

pub use crate::lines::line_number;

use crate::lines::line_number_spec;
use crate::check::{trace_key, trace_key_str};
use crate::record::{fields_of, opt_view, pairs_view, Pair};
use crate::text::{decimal, push_decimal, push_str, str_eq, str_to_string};
use crate::{items_view, Item, ItemView, Record};

verus! {

/// `line N (byte M)` for byte `offset` of the text with bytes `b`.
pub open spec fn location_text(b: Seq<u8>, offset: int) -> Seq<char> {
    "line "@ + decimal(line_number_spec(b, offset) as nat) + " (byte "@ + decimal(offset as nat)
        + ")"@
}

/// `line N (byte M)` for a byte offset taken from a record span.
pub fn location(source: &str, offset: usize) -> (r: String)
    requires
        offset <= source.spec_bytes().len() < usize::MAX,
    ensures
        r@ == location_text(source.spec_bytes(), offset as int),
{
    let line = line_number(source, offset);
    let mut r = str_to_string("line ");
    push_decimal(&mut r, line);
    push_str(&mut r, " (byte ");
    push_decimal(&mut r, offset);
    push_str(&mut r, ")");
    r
}

} // verus!

verus! {

/// The first style item of `items`.
pub open spec fn first_style(items: Seq<ItemView>) -> Option<Seq<char>>
    decreases items.len(),
{
    if items.len() == 0 {
        None
    } else {
        match items[0] {
            ItemView::Style(s) => Some(s),
            _ => first_style(items.drop_first()),
        }
    }
}

/// `n` is a trace-link attribute name.
pub open spec fn is_trace_key(n: Seq<char>) -> bool {
    n == trace_key(0) || n == trace_key(1) || n == trace_key(2)
}

/// The pairs of `fs` that are trace links (`traces`) or that are not.
pub open spec fn part(fs: Seq<Pair>, traces: bool) -> Seq<Pair>
    decreases fs.len(),
{
    if fs.len() == 0 {
        Seq::empty()
    } else {
        part(fs.drop_last(), traces) + if is_trace_key(fs.last().0) == traces {
            seq![fs.last()]
        } else {
            Seq::empty()
        }
    }
}

/// What the display of one record shows beyond its raw fields: the style
/// of its first attribute line, the lines its span covers, and its merged
/// attributes split into plain attributes and trace links.
pub struct Shown {
    pub style: Option<String>,
    pub first_line: usize,
    pub last_line: usize,
    pub parsed: Vec<(String, String)>,
    pub traces: Vec<(String, String)>,
}

/// Whether `n` is a trace-link attribute name.
fn is_trace_name(n: &str) -> (r: bool)
    ensures
        r == is_trace_key(n@),
{
    str_eq(n, trace_key_str(0)) || str_eq(n, trace_key_str(1)) || str_eq(n, trace_key_str(2))
}

/// The display data of `record`, extracted from `source`.
pub fn shown(source: &str, record: &Record) -> (r: Shown)
    requires
        record.span.start <= record.span.end <= source.spec_bytes().len() < usize::MAX,
    ensures
        opt_view(r.style) == (if record.attr_lines@.len() > 0 {
            first_style(items_view(record.attr_lines@[0].items@))
        } else {
            None
        }),
        r.first_line == line_number_spec(source.spec_bytes(), record.span.start as int),
        r.last_line == line_number_spec(source.spec_bytes(), record.span.end as int),
        pairs_view(r.parsed@) == part(fields_of(*record), false),
        pairs_view(r.traces@) == part(fields_of(*record), true),
{
    let mut style: Option<String> = None;
    if record.attr_lines.len() > 0 {
        let items = &record.attr_lines[0].items;
        let ghost iv = items_view(items@);
        let mut i: usize = 0;
        let mut found = false;
        assert(iv.skip(0) =~= iv);
        while i < items.len() && !found
            invariant
                i <= items@.len(),
                iv == items_view(items@),
                iv.len() == items@.len(),
                !found ==> first_style(iv) == first_style(iv.skip(i as int)),
                !found ==> style is None,
                found ==> opt_view(style) == first_style(iv),
            decreases items@.len() - i + (if found {
                0int
            } else {
                1int
            }),
        {
            let ghost rest = iv.skip(i as int);
            assert(rest[0] == iv[i as int] && iv[i as int] == items@[i as int]@);
            match &items[i] {
                Item::Style(s) => {
                    style = Some(s.clone());
                    found = true;
                },
                _ => {
                    assert(rest.drop_first() =~= iv.skip(i + 1));
                    i += 1;
                },
            }
        }
        proof {
            if !found {
                assert(iv.skip(i as int) =~= Seq::<ItemView>::empty());
            }
        }
    }
    let fields = record.fields();
    let ghost fv = pairs_view(fields@);
    let mut parsed: Vec<(String, String)> = Vec::new();
    let mut traces: Vec<(String, String)> = Vec::new();
    let mut k: usize = 0;
    assert(fv.take(0) =~= Seq::<Pair>::empty());
    while k < fields.len()
        invariant
            k <= fields@.len(),
            fv == pairs_view(fields@),
            fv == fields_of(*record),
            fv.len() == fields@.len(),
            pairs_view(parsed@) == part(fv.take(k as int), false),
            pairs_view(traces@) == part(fv.take(k as int), true),
        decreases fields@.len() - k,
    {
        assert(fv.take(k + 1).drop_last() =~= fv.take(k as int));
        assert(fv.take(k + 1).last() == fv[k as int]);
        assert(fv[k as int] == (fields@[k as int].0@, fields@[k as int].1@));
        let ghost p0 = pairs_view(parsed@);
        let ghost t0 = pairs_view(traces@);
        let pair = (fields[k].0.clone(), fields[k].1.clone());
        if is_trace_name(fields[k].0.as_str()) {
            traces.push(pair);
            assert(pairs_view(traces@) =~= t0.push(fv[k as int]));
            assert(pairs_view(parsed@) =~= p0);
        } else {
            parsed.push(pair);
            assert(pairs_view(parsed@) =~= p0.push(fv[k as int]));
            assert(pairs_view(traces@) =~= t0);
        }
        k += 1;
    }
    assert(fv.take(fields@.len() as int) =~= fv);
    Shown {
        style,
        first_line: line_number(source, record.span.start),
        last_line: line_number(source, record.span.end),
        parsed,
        traces,
    }
}

} // verus!

verus! {

/// `n` names a trace link: `refines`, `derives-from` or `satisfies`.
pub open spec fn names_trace_link(n: Seq<char>) -> bool {
    n == "refines"@ || n == "derives-from"@ || n == "satisfies"@
}

/// Law: the display splits the merged attributes in two, keeping their
/// order: the trace links are exactly the attributes named `refines`,
/// `derives-from` or `satisfies`, and the plain attributes are all the
/// others, whatever their names.
pub proof fn lemma_display_splits_trace_links(fs: Seq<Pair>)
    ensures
        part(fs, true) == fs.filter(|p: Pair| names_trace_link(p.0)),
        part(fs, false) == fs.filter(|p: Pair| !names_trace_link(p.0)),
    decreases fs.len(),
{
    reveal(Seq::filter);
    if fs.len() > 0 {
        lemma_display_splits_trace_links(fs.drop_last());
        assert(is_trace_key(fs.last().0) == names_trace_link(fs.last().0));
        assert(part(fs, true) =~= fs.filter(|p: Pair| names_trace_link(p.0)));
        assert(part(fs, false) =~= fs.filter(|p: Pair| !names_trace_link(p.0)));
    } else {
        assert(fs.filter(|p: Pair| names_trace_link(p.0)) =~= Seq::<Pair>::empty());
        assert(fs.filter(|p: Pair| !names_trace_link(p.0)) =~= Seq::<Pair>::empty());
    }
}

} // verus!
