//! The line table of a source text: the byte range of every line, without
//! its terminator. Lines end at `\n`; a `\r` right before the `\n` (or at
//! the end of the text) belongs to the terminator, a lone `\r` elsewhere does
//! not.
use vstd::prelude::*;
use vstd::string::StringSliceAdditionalSpecFns;
use vstd::utf8::*;

use crate::text::boundaries;

verus! {

/// Where a line whose content starts at `s` and runs up to `e` (a `\n` or
/// the end of the text) ends once a trailing `\r` is dropped.
pub open spec fn content_end(b: Seq<u8>, s: int, e: int) -> int {
    if e > s && b[e - 1] == 13 {
        e - 1
    } else {
        e
    }
}

/// The finished lines of `b[..i]` and the start of the line in progress.
pub open spec fn table_state(b: Seq<u8>, i: int) -> (Seq<(int, int)>, int)
    decreases i,
{
    if i <= 0 {
        (Seq::empty(), 0)
    } else {
        let (t, s) = table_state(b, i - 1);
        if b[i - 1] == 10 {
            (t.push((s, content_end(b, s, i - 1))), i)
        } else {
            (t, s)
        }
    }
}

/// The `(start, end)` byte range of every line of `b`, terminators excluded.
pub open spec fn line_table(b: Seq<u8>) -> Seq<(int, int)> {
    let (t, s) = table_state(b, b.len() as int);
    t.push((s, content_end(b, s, b.len() as int)))
}

/// The table as integers.
pub open spec fn table_view(t: Seq<(usize, usize)>) -> Seq<(int, int)> {
    t.map_values(|p: (usize, usize)| (p.0 as int, p.1 as int))
}

/// Number of `\n` bytes in `b[..i]`.
pub open spec fn newlines(b: Seq<u8>, i: int) -> int
    decreases i,
{
    if i <= 0 {
        0
    } else {
        newlines(b, i - 1) + if b[i - 1] == 10 {
            1int
        } else {
            0
        }
    }
}

/// What the lines of a text are: consecutive, `\n`-separated ranges.
pub open spec fn well_formed_table(b: Seq<u8>, t: Seq<(int, int)>) -> bool {
    &&& t.len() >= 1
    &&& t[0].0 == 0
    &&& forall|k: int| 0 <= k < t.len() ==> 0 <= #[trigger] t[k].0 <= t[k].1 <= b.len()
    &&& forall|k: int|
        0 <= k < t.len() - 1 ==> {
            &&& b[t[k + 1].0 - 1] == 10
            &&& t[k].1 <= t[k + 1].0 - 1
            &&& (#[trigger] t[k + 1]).0 - 1 == content_end_raw(b, t[k].0, t[k].1)
        }
    &&& content_end_raw(b, t[t.len() - 1].0, t[t.len() - 1].1) == b.len()
}

/// The position of the terminator of a line whose content is `s..e`.
pub open spec fn content_end_raw(b: Seq<u8>, s: int, e: int) -> int {
    if e < b.len() && b[e] == 13 {
        e + 1
    } else {
        e
    }
}

/// Invariant of the scan that builds the table.
pub open spec fn state_ok(b: Seq<u8>, i: int, t: Seq<(int, int)>, s: int) -> bool {
    &&& 0 <= s <= i <= b.len()
    &&& (t.len() == 0 ==> s == 0)
    &&& (t.len() > 0 ==> t[0].0 == 0 && b[s - 1] == 10 && s - 1 == content_end_raw(
        b,
        t[t.len() - 1].0,
        t[t.len() - 1].1,
    ) && t[t.len() - 1].1 <= s - 1)
    &&& forall|k: int| 0 <= k < t.len() ==> 0 <= #[trigger] t[k].0 <= t[k].1 <= b.len()
    &&& forall|k: int|
        0 <= k < t.len() - 1 ==> {
            &&& b[t[k + 1].0 - 1] == 10
            &&& t[k].1 <= t[k + 1].0 - 1
            &&& (#[trigger] t[k + 1]).0 - 1 == content_end_raw(b, t[k].0, t[k].1)
        }
    &&& forall|j: int| s <= j < i ==> b[j] != 10
    &&& t.len() == newlines(b, i)
}

/// The scan keeps its invariant.
pub proof fn lemma_table_state(b: Seq<u8>, i: int)
    requires
        0 <= i <= b.len(),
    ensures
        state_ok(b, i, table_state(b, i).0, table_state(b, i).1),
    decreases i,
{
    if i > 0 {
        lemma_table_state(b, i - 1);
        let (t, s) = table_state(b, i - 1);
        if b[i - 1] == 10 {
            let e = content_end(b, s, i - 1);
            assert(content_end_raw(b, s, e) == i - 1);
            let t2 = t.push((s, e));
            assert forall|k: int| 0 <= k < t2.len() - 1 implies {
                &&& b[t2[k + 1].0 - 1] == 10
                &&& t2[k].1 <= t2[k + 1].0 - 1
                &&& (#[trigger] t2[k + 1]).0 - 1 == content_end_raw(b, t2[k].0, t2[k].1)
            } by {
                if k == t.len() - 1 {
                    assert(t2[k + 1] == (s, e));
                    assert(t2[k] == t[k]);
                } else {
                    assert(t2[k + 1] == t[k + 1]);
                    assert(t2[k] == t[k]);
                }
            }
            assert forall|k: int| 0 <= k < t2.len() implies 0 <= #[trigger] t2[k].0 <= t2[k].1
                <= b.len() by {
                if k < t.len() {
                    assert(t2[k] == t[k]);
                }
            }
        }
    }
}

/// The table of a text is well formed.
pub proof fn lemma_line_table(b: Seq<u8>)
    ensures
        well_formed_table(b, line_table(b)),
        line_table(b).len() == newlines(b, b.len() as int) + 1,
{
    lemma_table_state(b, b.len() as int);
    let (t, s) = table_state(b, b.len() as int);
    let n = b.len() as int;
    let e = content_end(b, s, n);
    let t2 = t.push((s, e));
    assert(content_end_raw(b, s, e) == n);
    assert forall|k: int| 0 <= k < t2.len() - 1 implies {
        &&& b[t2[k + 1].0 - 1] == 10
        &&& t2[k].1 <= t2[k + 1].0 - 1
        &&& (#[trigger] t2[k + 1]).0 - 1 == content_end_raw(b, t2[k].0, t2[k].1)
    } by {
        if k == t.len() - 1 {
            assert(t2[k + 1] == (s, e));
            assert(t2[k] == t[k]);
        } else {
            assert(t2[k + 1] == t[k + 1]);
            assert(t2[k] == t[k]);
        }
    }
    assert forall|k: int| 0 <= k < t2.len() implies 0 <= #[trigger] t2[k].0 <= t2[k].1
        <= b.len() by {
        if k < t.len() {
            assert(t2[k] == t[k]);
        }
    }
    if t.len() > 0 {
        assert(t2[0] == t[0]);
    }
}

/// An ASCII byte is a character of its own: both its offset and the offset
/// after it are character boundaries.
pub proof fn lemma_ascii_boundaries(b: Seq<u8>, i: int)
    requires
        valid_utf8(b),
        0 <= i < b.len(),
        b[i] < 128,
    ensures
        is_char_boundary(b, i),
        is_char_boundary(b, i + 1),
{
    is_char_boundary_iff_not_is_continuation_byte(b, i);
    let x = b[i];
    assert(!is_continuation_byte(x)) by (bit_vector)
        requires
            x < 128,
    ;
    if i + 1 == b.len() {
        is_char_boundary_start_end_of_seq(b);
    } else {
        valid_utf8_split(b, i);
        let tail = b.subrange(i, b.len() as int);
        assert(tail[0] == x);
        assert(is_leading_byte_width_1(x)) by (bit_vector)
            requires
                x < 128,
        ;
        reveal_with_fuel(is_char_boundary, 2);
        assert(is_char_boundary(tail, 1));
        is_char_boundary_iff_not_is_continuation_byte(tail, 1);
        is_char_boundary_iff_not_is_continuation_byte(b, i + 1);
        assert(tail[1] == b[i + 1]);
    }
}

/// Every line of a valid text starts and ends on character boundaries.
pub proof fn lemma_line_boundaries(b: Seq<u8>, k: int)
    requires
        valid_utf8(b),
        0 <= k < line_table(b).len(),
    ensures
        boundaries(b, line_table(b)[k].0, line_table(b)[k].1),
{
    lemma_line_table(b);
    let t = line_table(b);
    is_char_boundary_start_end_of_seq(b);
    if k > 0 {
        let p = t[k].0 - 1;
        assert(t[k] == t[(k - 1) + 1]);
        assert(b[p] == 10);
        lemma_ascii_boundaries(b, p);
    }
    let e = t[k].1;
    if e < b.len() {
        if k < t.len() - 1 {
            assert(t[(k + 1)].0 - 1 == content_end_raw(b, t[k].0, t[k].1));
            if b[e] != 13 {
                assert(b[t[k + 1].0 - 1] == 10);
            }
        } else {
            assert(content_end_raw(b, t[k].0, e) == b.len());
        }
        assert(b[e] == 10 || b[e] == 13);
        lemma_ascii_boundaries(b, e);
    }
}

/// The line table of `source`.
pub fn line_table_of(source: &str) -> (r: Vec<(usize, usize)>)
    ensures
        table_view(r@) == line_table(source.spec_bytes()),
{
    let bytes = source.as_bytes();
    let ghost b = source.spec_bytes();
    let n = bytes.len();
    let mut t: Vec<(usize, usize)> = Vec::new();
    let mut s: usize = 0;
    let mut i: usize = 0;
    assert(table_view(t@) =~= Seq::<(int, int)>::empty());
    while i < n
        invariant
            i <= n == b.len(),
            bytes@ == b,
            s <= i,
            (table_view(t@), s as int) == table_state(b, i as int),
        decreases n - i,
    {
        if bytes[i] == 10 {
            let e = if i > s && bytes[i - 1] == 13 {
                i - 1
            } else {
                i
            };
            t.push((s, e));
            assert(table_view(t@) =~= table_state(b, i as int).0.push(
                (s as int, content_end(b, s as int, i as int)),
            ));
            s = i + 1;
        }
        i += 1;
    }
    let e = if n > s && bytes[n - 1] == 13 {
        n - 1
    } else {
        n
    };
    t.push((s, e));
    assert(table_view(t@) =~= line_table(b));
    t
}

/// 1-based number of the line that holds byte `at` of `b`: one more than
/// the number of `\n` before it, so LF and CRLF texts agree.
pub open spec fn line_number_spec(b: Seq<u8>, at: int) -> int {
    1 + newlines(b, at)
}

/// 1-based number of the source line holding byte `offset`; offsets past the
/// end count every line.
pub fn line_number(source: &str, offset: usize) -> (r: usize)
    requires
        source.spec_bytes().len() < usize::MAX,
    ensures
        r == line_number_spec(
            source.spec_bytes(),
            if offset <= source.spec_bytes().len() {
                offset as int
            } else {
                source.spec_bytes().len() as int
            },
        ),
{
    let bytes = source.as_bytes();
    let ghost b = source.spec_bytes();
    let end = if offset <= bytes.len() {
        offset
    } else {
        bytes.len()
    };
    let mut count: usize = 0;
    let mut i: usize = 0;
    while i < end
        invariant
            i <= end <= b.len(),
            bytes@ == b,
            count == newlines(b, i as int),
            count <= i,
        decreases end - i,
    {
        if bytes[i] == 10 {
            count += 1;
        }
        i += 1;
    }
    count + 1
}

/// Lines come in order: later lines start and end no earlier.
pub proof fn lemma_table_monotone(b: Seq<u8>, t: Seq<(int, int)>, k1: int, k2: int)
    requires
        well_formed_table(b, t),
        0 <= k1 <= k2 < t.len(),
    ensures
        t[k1].0 <= t[k2].0,
        t[k1].1 <= t[k2].1,
        k1 < k2 ==> t[k1].1 < t[k2].0,
    decreases k2 - k1,
{
    if k1 < k2 {
        lemma_table_monotone(b, t, k1, k2 - 1);
        assert(t[(k2 - 1) + 1] == t[k2]);
        assert(t[k2 - 1].1 <= t[k2].0 - 1);
        assert(0 <= t[k2].0 <= t[k2].1);
        assert(0 <= t[k2 - 1].0 <= t[k2 - 1].1);
    }
}

} // verus!
