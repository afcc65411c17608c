//! Reading a record: its merged attributes and its normative statement.
use vstd::prelude::*;

use crate::text::{
    is_whitespace, lines_of, push_char, str_eq, str_lines, trim, trim_bounds, trim_start, vecs_view,
};
use crate::{items_view, AttrLine, Item, ItemView, Record};

verus! {

/// A name and a value.
pub type Pair = (Seq<char>, Seq<char>);

/// The named attributes of a list of items, in order.
pub open spec fn item_kvs(items: Seq<ItemView>) -> Seq<Pair>
    decreases items.len(),
{
    if items.len() == 0 {
        Seq::empty()
    } else {
        item_kvs(items.drop_last()) + match items.last() {
            ItemView::Kv { name, value } => seq![(name, value)],
            _ => Seq::empty(),
        }
    }
}

/// The named attributes of a list of attribute lines, in order.
pub open spec fn line_kvs(lines: Seq<AttrLine>) -> Seq<Pair>
    decreases lines.len(),
{
    if lines.len() == 0 {
        Seq::empty()
    } else {
        line_kvs(lines.drop_last()) + item_kvs(items_view(lines.last().items@))
    }
}

/// Index of the first pair named `n`, or `-1`.
pub open spec fn index_of(acc: Seq<Pair>, n: Seq<char>) -> int
    decreases acc.len(),
{
    if acc.len() == 0 {
        -1
    } else if acc[0].0 == n {
        0
    } else {
        let r = index_of(acc.drop_first(), n);
        if r < 0 {
            -1
        } else {
            r + 1
        }
    }
}

/// The value of the first pair named `n`.
pub open spec fn lookup(acc: Seq<Pair>, n: Seq<char>) -> Option<Seq<char>> {
    let i = index_of(acc, n);
    if i >= 0 {
        Some(acc[i].1)
    } else {
        None
    }
}

/// One more named attribute: it overrides the value of an earlier pair of
/// the same name, or is appended.
pub open spec fn merge_one(acc: Seq<Pair>, kv: Pair) -> Seq<Pair> {
    let i = index_of(acc, kv.0);
    if i >= 0 {
        acc.update(i, (acc[i].0, kv.1))
    } else {
        acc.push(kv)
    }
}

/// All named attributes merged, later ones overriding earlier ones.
pub open spec fn merge_all(kvs: Seq<Pair>) -> Seq<Pair>
    decreases kvs.len(),
{
    if kvs.len() == 0 {
        Seq::empty()
    } else {
        merge_one(merge_all(kvs.drop_last()), kvs.last())
    }
}

/// The value of the last pair named `n`.
pub open spec fn last_value(kvs: Seq<Pair>, n: Seq<char>) -> Option<Seq<char>>
    decreases kvs.len(),
{
    if kvs.len() == 0 {
        None
    } else if kvs.last().0 == n {
        Some(kvs.last().1)
    } else {
        last_value(kvs.drop_last(), n)
    }
}

/// The merged attribute view of a record.
pub open spec fn fields_of(r: Record) -> Seq<Pair> {
    merge_all(line_kvs(r.attr_lines@))
}

/// The views of a list of string pairs.
pub open spec fn pairs_view(v: Seq<(String, String)>) -> Seq<Pair> {
    v.map_values(|p: (String, String)| (p.0@, p.1@))
}

/// The view of an optional string.
pub open spec fn opt_view(o: Option<String>) -> Option<Seq<char>> {
    match o {
        Some(s) => Some(s@),
        None => None,
    }
}

/// What `index_of` computes.
pub proof fn lemma_index_of(acc: Seq<Pair>, n: Seq<char>)
    ensures
        -1 <= index_of(acc, n) < acc.len(),
        index_of(acc, n) == -1 <==> (forall|j: int| 0 <= j < acc.len() ==> acc[j].0 != n),
        index_of(acc, n) >= 0 ==> acc[index_of(acc, n)].0 == n && (forall|j: int|
            0 <= j < index_of(acc, n) ==> acc[j].0 != n),
    decreases acc.len(),
{
    if acc.len() > 0 && acc[0].0 != n {
        lemma_index_of(acc.drop_first(), n);
        assert forall|j: int| 0 < j < acc.len() implies acc[j] == acc.drop_first()[j - 1] by {}
        if forall|j: int| 0 <= j < acc.len() ==> acc[j].0 != n {
            assert forall|j: int| 0 <= j < acc.drop_first().len() implies acc.drop_first()[j].0
                != n by {
                assert(acc.drop_first()[j] == acc[j + 1]);
            }
        }
    }
}

/// A first occurrence is what `index_of` returns.
pub proof fn lemma_index_of_at(acc: Seq<Pair>, n: Seq<char>, i: int)
    requires
        0 <= i < acc.len(),
        acc[i].0 == n,
        forall|j: int| 0 <= j < i ==> acc[j].0 != n,
    ensures
        index_of(acc, n) == i,
{
    lemma_index_of(acc, n);
}

/// No name occurs twice in `acc`.
pub open spec fn names_unique(acc: Seq<Pair>) -> bool {
    forall|i: int, j: int| 0 <= i < j < acc.len() ==> acc[i].0 != acc[j].0
}

/// Looking a name up after one more attribute.
pub proof fn lemma_lookup_merge_one(acc: Seq<Pair>, kv: Pair, n: Seq<char>)
    ensures
        lookup(merge_one(acc, kv), n) == if kv.0 == n {
            Some(kv.1)
        } else {
            lookup(acc, n)
        },
        names_unique(acc) ==> names_unique(merge_one(acc, kv)),
{
    let i = index_of(acc, kv.0);
    let m = merge_one(acc, kv);
    lemma_index_of(acc, kv.0);
    lemma_index_of(acc, n);
    if i >= 0 {
        assert(m.len() == acc.len());
        assert forall|j: int| 0 <= j < m.len() implies #[trigger] m[j].0 == acc[j].0 by {}
        lemma_index_of(m, n);
        if index_of(acc, n) >= 0 {
            lemma_index_of_at(m, n, index_of(acc, n));
        }
    } else {
        if kv.0 == n {
            lemma_index_of_at(m, n, acc.len() as int);
        } else {
            lemma_index_of(m, n);
            if index_of(acc, n) >= 0 {
                lemma_index_of_at(m, n, index_of(acc, n));
            }
        }
    }
}

/// Law: the merged view holds, for every name, the value of the last
/// attribute of that name; no name appears in it twice.
pub proof fn lemma_merge_last(kvs: Seq<Pair>, n: Seq<char>)
    ensures
        lookup(merge_all(kvs), n) == last_value(kvs, n),
        names_unique(merge_all(kvs)),
    decreases kvs.len(),
{
    if kvs.len() > 0 {
        lemma_merge_last(kvs.drop_last(), n);
        lemma_lookup_merge_one(merge_all(kvs.drop_last()), kvs.last(), n);
    }
}

/// The named attributes of one more item.
pub proof fn lemma_item_kvs_push(items: Seq<ItemView>, it: ItemView)
    ensures
        item_kvs(items.push(it)) == item_kvs(items) + match it {
            ItemView::Kv { name, value } => seq![(name, value)],
            _ => Seq::<Pair>::empty(),
        },
{
    assert(items.push(it).drop_last() =~= items);
}

/// `l` holds `::`.
pub open spec fn has_double_colon(l: Seq<char>) -> bool {
    exists|i: int| 0 <= i < l.len() - 1 && #[trigger] l[i] == ':' && l[i + 1] == ':'
}

/// A line that belongs to the leading paragraph: not blank, not a block
/// title or attribute (`.` after leading whitespace), not a description-list
/// entry (`::`).
pub open spec fn statement_line(l: Seq<char>) -> bool {
    &&& trim(l).len() > 0
    &&& !(trim_start(l).len() > 0 && trim_start(l)[0] == '.')
    &&& !has_double_colon(l)
}

/// The leading run of statement lines.
pub open spec fn leading(ls: Seq<Seq<char>>) -> Seq<Seq<char>>
    decreases ls.len(),
{
    if ls.len() == 0 || !statement_line(ls[0]) {
        Seq::empty()
    } else {
        seq![ls[0]] + leading(ls.drop_first())
    }
}

/// Lines joined by single spaces.
pub open spec fn join_spaces(ls: Seq<Seq<char>>) -> Seq<char>
    decreases ls.len(),
{
    if ls.len() == 0 {
        Seq::empty()
    } else if ls.len() == 1 {
        ls[0]
    } else {
        ls[0] + seq![' '] + join_spaces(ls.drop_first())
    }
}

/// The normative statement of a body.
pub open spec fn statement_of(body: Seq<char>) -> Seq<char> {
    join_spaces(leading(str_lines(body)))
}

/// Joining one more line.
pub proof fn lemma_join_spaces_push(ls: Seq<Seq<char>>, x: Seq<char>)
    ensures
        join_spaces(ls.push(x)) == if ls.len() == 0 {
            x
        } else {
            join_spaces(ls) + seq![' '] + x
        },
    decreases ls.len(),
{
    assert(join_spaces(seq![x]) == x);
    if ls.len() == 0 {
        assert(ls.push(x) =~= seq![x]);
    } else if ls.len() == 1 {
        assert(ls.push(x).drop_first() =~= seq![x]);
        assert(ls.push(x)[0] == ls[0]);
    } else {
        assert(ls.push(x)[0] == ls[0]);
        lemma_join_spaces_push(ls.drop_first(), x);
        assert(ls.push(x).drop_first() =~= ls.drop_first().push(x));
        assert(join_spaces(ls.push(x)) =~= join_spaces(ls) + seq![' '] + x);
    }
}

/// Whether `l` is a statement line.
pub fn is_statement_line(l: &[char]) -> (r: bool)
    ensures
        r == statement_line(l@),
{
    let (a, z) = trim_bounds(l, 0, l.len());
    assert(l@.subrange(0, l@.len() as int) =~= l@);
    if a == z {
        return false;
    }
    let mut s: usize = 0;
    while s < l.len() && is_whitespace(l[s])
        invariant
            s <= l@.len(),
            trim_start(l@) == trim_start(l@.subrange(s as int, l@.len() as int)),
        decreases l@.len() - s,
    {
        assert(l@.subrange(s as int, l@.len() as int).drop_first() =~= l@.subrange(s + 1, l@.len() as int));
        s += 1;
    }
    assert(l@.subrange(0, l@.len() as int) =~= l@);
    if s < l.len() {
        assert(trim_start(l@.subrange(s as int, l@.len() as int)) == l@.subrange(s as int, l@.len() as int));
        assert(trim_start(l@)[0] == l@[s as int]);
    } else {
        assert(l@.subrange(s as int, l@.len() as int) =~= Seq::<char>::empty());
    }
    if s < l.len() && l[s] == '.' {
        return false;
    }
    let mut i: usize = 0;
    while i < l.len() && l.len() - i > 1
        invariant
            i <= l@.len(),
            forall|j: int| 0 <= j < i && j < l@.len() - 1 ==> !(#[trigger] l@[j] == ':' && l@[j + 1] == ':'),
        decreases l@.len() - i,
    {
        if l[i] == ':' && l[i + 1] == ':' {
            assert(has_double_colon(l@));
            return false;
        }
        i += 1;
    }
    true
}

impl Record {
    /// The normative statement: the body's leading paragraph, i.e. the lines
    /// before the first blank line, block title, or description-list entry,
    /// joined by spaces.
    pub fn statement(&self) -> (r: String)
        ensures
            r@ == statement_of(self.body_raw@),
    {
        let ls = lines_of(self.body_raw.as_str());
        let ghost lv = vecs_view(ls@);
        let mut out = String::new();
        let mut k: usize = 0;
        assert(lv.skip(0) =~= lv);
        assert(lv.take(0) =~= Seq::<Seq<char>>::empty());
        let n = ls.len();
        let mut more = k < n && is_statement_line(ls[k].as_slice());
        while more
            invariant
                k <= ls@.len(),
                n == ls@.len(),
                lv == vecs_view(ls@),
                lv.len() == ls@.len(),
                leading(lv) == lv.take(k as int) + leading(lv.skip(k as int)),
                out@ == join_spaces(lv.take(k as int)),
                more == (k < ls@.len() && statement_line(lv[k as int])),
            decreases ls@.len() - k,
        {
            assert(k < ls@.len());
            let ghost rest = lv.skip(k as int);
            assert(rest[0] == lv[k as int]);
            assert(rest.drop_first() =~= lv.skip(k + 1));
            assert(lv.take(k + 1) =~= lv.take(k as int).push(lv[k as int]));
            proof {
                lemma_join_spaces_push(lv.take(k as int), lv[k as int]);
            }
            if k > 0 {
                push_char(&mut out, ' ');
            }
            let line = &ls[k];
            crate::text::push_chars(&mut out, line.as_slice());
            assert(lv[k as int] == line@);
            assert(lv.take(k as int) + leading(rest) =~= lv.take(k + 1) + leading(lv.skip(k + 1)));
            k += 1;
            more = k < n && is_statement_line(ls[k].as_slice());
        }
        proof {
            let rest = lv.skip(k as int);
            if k < ls@.len() {
                assert(rest[0] == lv[k as int]);
            }
            assert(leading(rest) == Seq::<Seq<char>>::empty());
            assert(lv.take(k as int) + leading(rest) =~= lv.take(k as int));
        }
        out
    }
}

impl Record {
    /// The merged attribute view: later lines override earlier ones for the
    /// same key, and each name keeps the position of its first appearance.
    /// Style and id are not included.
    pub fn fields(&self) -> (r: Vec<(String, String)>)
        ensures
            pairs_view(r@) == fields_of(*self),
    {
        let mut acc: Vec<(String, String)> = Vec::new();
        let ghost mut done: Seq<AttrLine> = Seq::empty();
        let mut l: usize = 0;
        assert(pairs_view(acc@) =~= merge_all(line_kvs(self.attr_lines@.take(0))));
        while l < self.attr_lines.len()
            invariant
                l <= self.attr_lines@.len(),
                pairs_view(acc@) == merge_all(line_kvs(self.attr_lines@.take(l as int))),
            decreases self.attr_lines@.len() - l,
        {
            let line = &self.attr_lines[l];
            let ghost prefix = line_kvs(self.attr_lines@.take(l as int));
            let ghost iv = items_view(line.items@);
            let mut i: usize = 0;
            assert(item_kvs(iv.take(0)) =~= Seq::<Pair>::empty());
            assert(prefix + item_kvs(iv.take(0)) =~= prefix);
            while i < line.items.len()
                invariant
                    i <= line.items@.len(),
                    iv == items_view(line.items@),
                    iv.len() == line.items@.len(),
                    pairs_view(acc@) == merge_all(prefix + item_kvs(iv.take(i as int))),
                decreases line.items@.len() - i,
            {
                let ghost before = prefix + item_kvs(iv.take(i as int));
                proof {
                    assert(iv.take(i + 1) =~= iv.take(i as int).push(iv[i as int]));
                    lemma_item_kvs_push(iv.take(i as int), iv[i as int]);
                }
                match &line.items[i] {
                    Item::Kv { name, value } => {
                        let ghost kv = (name@, value@);
                        assert(prefix + item_kvs(iv.take(i + 1)) =~= before.push(kv));
                        assert(before.push(kv).drop_last() =~= before);
                        let ghost pv = pairs_view(acc@);
                        let mut j: usize = 0;
                        let mut found = false;
                        while j < acc.len() && !found
                            invariant
                                j <= acc@.len(),
                                pv == pairs_view(acc@),
                                found ==> j < acc@.len() && pv[j as int].0 == name@,
                                forall|k: int| 0 <= k < j ==> #[trigger] pv[k].0 != name@,
                            decreases acc@.len() - j + (if found { 0int } else { 1int }),
                        {
                            if str_eq(acc[j].0.as_str(), name.as_str()) {
                                found = true;
                            } else {
                                j += 1;
                            }
                        }
                        proof {
                            lemma_index_of(pv, name@);
                        }
                        if j < acc.len() {
                            proof {
                                lemma_index_of_at(pv, name@, j as int);
                            }
                            let slot_name = acc[j].0.clone();
                            acc.set(j, (slot_name, value.clone()));
                            assert(pairs_view(acc@) =~= merge_one(pv, kv));
                        } else {
                            acc.push((name.clone(), value.clone()));
                            assert(pairs_view(acc@) =~= merge_one(pv, kv));
                        }
                    },
                    _ => {
                        assert(prefix + item_kvs(iv.take(i + 1)) =~= before);
                    },
                }
                i += 1;
            }
            proof {
                assert(iv.take(iv.len() as int) =~= iv);
                assert(self.attr_lines@.take(l + 1) =~= self.attr_lines@.take(l as int).push(
                    self.attr_lines@[l as int],
                ));
                assert(self.attr_lines@.take(l + 1).drop_last() =~= self.attr_lines@.take(l as int));
            }
            l += 1;
        }
        assert(self.attr_lines@.take(self.attr_lines@.len() as int) =~= self.attr_lines@);
        acc
    }

    /// The merged value of attribute `name`: the value of the last attribute
    /// line item of that name.
    pub fn field(&self, name: &str) -> (r: Option<String>)
        ensures
            opt_view(r) == lookup(fields_of(*self), name@),
            opt_view(r) == last_value(line_kvs(self.attr_lines@), name@),
    {
        let fields = self.fields();
        let ghost pv = pairs_view(fields@);
        let mut j: usize = 0;
        while j < fields.len()
            invariant
                j <= fields@.len(),
                pv == pairs_view(fields@),
                pv == fields_of(*self),
                forall|k: int| 0 <= k < j ==> #[trigger] pv[k].0 != name@,
            decreases fields@.len() - j,
        {
            if str_eq(fields[j].0.as_str(), name) {
                proof {
                    assert(pv[j as int] == (fields@[j as int].0@, fields@[j as int].1@));
                    lemma_index_of_at(pv, name@, j as int);
                    lemma_merge_last(line_kvs(self.attr_lines@), name@);
                }
                return Some(fields[j].1.clone());
            }
            j += 1;
        }
        proof {
            lemma_index_of(pv, name@);
            lemma_merge_last(line_kvs(self.attr_lines@), name@);
        }
        None
    }
}

} // verus!

verus! {

/// The names of `kvs`, each once, in order of first occurrence.
pub open spec fn first_names(kvs: Seq<Pair>) -> Seq<Seq<char>>
    decreases kvs.len(),
{
    if kvs.len() == 0 {
        Seq::empty()
    } else {
        let d = first_names(kvs.drop_last());
        if d.contains(kvs.last().0) {
            d
        } else {
            d.push(kvs.last().0)
        }
    }
}

/// The names of some pairs, in order.
pub open spec fn names_of(acc: Seq<Pair>) -> Seq<Seq<char>> {
    acc.map_values(|p: Pair| p.0)
}

/// Law: the merged view lists each name once, in the order the names
/// first appear across the attribute lines, and holds for each the value of
/// its last occurrence.
pub proof fn lemma_merge_order(kvs: Seq<Pair>)
    ensures
        names_of(merge_all(kvs)) == first_names(kvs),
        forall|n: Seq<char>| #[trigger] lookup(merge_all(kvs), n) == last_value(kvs, n),
        names_unique(merge_all(kvs)),
    decreases kvs.len(),
{
    assert forall|n: Seq<char>| #[trigger] lookup(merge_all(kvs), n) == last_value(kvs, n) by {
        lemma_merge_last(kvs, n);
    }
    lemma_merge_last(kvs, Seq::empty());
    if kvs.len() > 0 {
        lemma_merge_order(kvs.drop_last());
        let acc = merge_all(kvs.drop_last());
        let kv = kvs.last();
        let d = first_names(kvs.drop_last());
        lemma_index_of(acc, kv.0);
        let i = index_of(acc, kv.0);
        if i >= 0 {
            assert(names_of(acc)[i] == kv.0);
            assert(d.contains(kv.0));
            assert(names_of(merge_one(acc, kv)) =~= names_of(acc));
        } else {
            if d.contains(kv.0) {
                let q = choose|q: int| 0 <= q < d.len() && d[q] == kv.0;
                assert(names_of(acc)[q] == acc[q].0);
            }
            assert(names_of(merge_one(acc, kv)) =~= names_of(acc).push(kv.0));
        }
    } else {
        assert(names_of(merge_all(kvs)) =~= Seq::<Seq<char>>::empty());
    }
}

} // verus!

verus! {

/// The first `n` lines of `ls` continue the leading paragraph and line `n`,
/// if any, ends it. A line continues it when it is not blank, does not
/// start with `.` after its leading whitespace, and holds no `::`.
pub open spec fn paragraph_ends_at(ls: Seq<Seq<char>>, n: int) -> bool {
    &&& 0 <= n <= ls.len()
    &&& forall|j: int|
        0 <= j < n ==> {
            let l = #[trigger] ls[j];
            &&& trim(l).len() > 0
            &&& !(trim_start(l).len() > 0 && trim_start(l)[0] == '.')
            &&& !has_double_colon(l)
        }
    &&& n < ls.len() ==> {
        let l = ls[n];
        ||| trim(l).len() == 0
        ||| (trim_start(l).len() > 0 && trim_start(l)[0] == '.')
        ||| has_double_colon(l)
    }
}

/// The leading run of some lines is their prefix up to the first line that
/// ends the paragraph.
proof fn lemma_leading_prefix(ls: Seq<Seq<char>>) -> (n: int)
    ensures
        paragraph_ends_at(ls, n),
        leading(ls) == ls.take(n),
    decreases ls.len(),
{
    if ls.len() == 0 || !statement_line(ls[0]) {
        assert(ls.take(0) =~= Seq::<Seq<char>>::empty());
        0
    } else {
        let m = lemma_leading_prefix(ls.drop_first());
        assert forall|j: int| 0 <= j < m + 1 implies statement_line(#[trigger] ls[j]) by {
            if j > 0 {
                assert(ls[j] == ls.drop_first()[j - 1]);
            }
        }
        if m + 1 < ls.len() {
            assert(ls[m + 1] == ls.drop_first()[m]);
        }
        assert(seq![ls[0]] + ls.drop_first().take(m) =~= ls.take(m + 1));
        m + 1
    }
}

/// Law: the statement of a body is its lines, from the first, up to the
/// first line that is blank, a block title or attribute (`.` after leading
/// whitespace) or a description entry (`::`), joined by single spaces. Any
/// other line continues it, whatever it ends with.
pub proof fn lemma_statement_is_leading_paragraph(body: Seq<char>)
    ensures
        exists|n: int|
            paragraph_ends_at(str_lines(body), n) && #[trigger] statement_of(body) == join_spaces(
                str_lines(body).take(n),
            ),
{
    let n = lemma_leading_prefix(str_lines(body));
    assert(paragraph_ends_at(str_lines(body), n) && statement_of(body) == join_spaces(
        str_lines(body).take(n),
    ));
}

} // verus!
