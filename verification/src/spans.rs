//! Where styled text is cut: spans laid end to end (known by their byte lengths) cut at the
//! bounds of tokens, and cut again where a word diff marks bytes as changed.
use std::ops::Range;

use vstd::prelude::*;

use crate::tokens::ranges_view;

verus! {

/// Where span `i` begins: the lengths of the spans before it.
pub open spec fn span_start(lens: Seq<usize>, i: int) -> int
    decreases i,
{
    if i <= 0 || i > lens.len() {
        0
    } else {
        span_start(lens, i - 1) + lens[i - 1]
    }
}

/// The larger of two integers.
pub open spec fn max_int(a: int, b: int) -> int {
    if a < b {
        b
    } else {
        a
    }
}

/// The smaller of two integers.
pub open spec fn min_int(a: int, b: int) -> int {
    if a < b {
        a
    } else {
        b
    }
}

/// The parts of spans `i..` that lie inside the byte range `r`: each as (span, start within
/// the span, end within the span), in order. A span overlaps `r` when it ends after `r` starts
/// and starts before `r` ends.
pub open spec fn token_pieces(lens: Seq<usize>, r: (int, int), i: int) -> Seq<(int, int, int)>
    decreases lens.len() - i,
{
    if i < 0 || i >= lens.len() {
        Seq::empty()
    } else {
        let start = span_start(lens, i);
        let end = start + lens[i];
        (if end > r.0 && start < r.1 {
            seq![(i, max_int(r.0, start) - start, min_int(r.1, end) - start)]
        } else {
            Seq::empty()
        }) + token_pieces(lens, r, i + 1)
    }
}

/// The pieces of spans that make up each token.
pub open spec fn tokens_pieces(lens: Seq<usize>, tokens: Seq<(int, int)>) -> Seq<Seq<(int, int, int)>> {
    tokens.map_values(|r: (int, int)| token_pieces(lens, r, 0))
}

/// The total length of the spans.
pub open spec fn total_len(lens: Seq<usize>) -> int {
    span_start(lens, lens.len() as int)
}

/// Pieces as integers.
pub open spec fn pieces_view(v: Seq<(usize, usize, usize)>) -> Seq<(int, int, int)> {
    v.map_values(|p: (usize, usize, usize)| (p.0 as int, p.1 as int, p.2 as int))
}

proof fn lemma_span_start_mono(lens: Seq<usize>, i: int, j: int)
    requires
        0 <= i <= j <= lens.len(),
    ensures
        span_start(lens, i) <= span_start(lens, j),
    decreases j - i,
{
    if i < j {
        lemma_span_start_mono(lens, i, j - 1);
    }
}

/// For each token (a byte range of the spans' text), the parts of the spans it is made of
/// (see [`token_pieces`]).
pub fn token_span_pieces(lens: &Vec<usize>, tokens: &Vec<Range<usize>>) -> (res: Vec<Vec<(usize, usize, usize)>>)
    requires
        total_len(lens@) <= usize::MAX,
    ensures
        res@.len() == tokens@.len(),
        forall|t: int|
            0 <= t < tokens@.len() ==> pieces_view(#[trigger] res@[t]@) == token_pieces(
                lens@,
                ranges_view(tokens@)[t],
                0,
            ),
{
    let ghost rv = ranges_view(tokens@);
    let mut res: Vec<Vec<(usize, usize, usize)>> = Vec::new();
    for t in 0..tokens.len()
        invariant
            rv == ranges_view(tokens@),
            total_len(lens@) <= usize::MAX,
            res@.len() == t,
            forall|u: int| 0 <= u < t ==> pieces_view(#[trigger] res@[u]@) == token_pieces(lens@, rv[u], 0),
    {
        let a = tokens[t].start;
        let b = tokens[t].end;
        let ghost r = rv[t as int];
        assert(r == (a as int, b as int));
        let mut pieces: Vec<(usize, usize, usize)> = Vec::new();
        let mut start: usize = 0;
        for i in 0..lens.len()
            invariant
                total_len(lens@) <= usize::MAX,
                r == (a as int, b as int),
                start == span_start(lens@, i as int),
                pieces_view(pieces@) + token_pieces(lens@, r, i as int) == token_pieces(lens@, r, 0),
        {
            proof {
                lemma_span_start_mono(lens@, i + 1, lens@.len() as int);
            }
            let end = start + lens[i];
            let ghost before = pieces_view(pieces@);
            if end > a && start < b {
                let from = if a > start {
                    a
                } else {
                    start
                };
                let to = if b < end {
                    b
                } else {
                    end
                };
                pieces.push((i, from - start, to - start));
                assert(pieces_view(pieces@) =~= before + seq![
                    (i as int, max_int(r.0, start as int) - start, min_int(r.1, end as int) - start),
                ]);
            } else {
                assert(pieces_view(pieces@) =~= before);
            }
            assert(before + token_pieces(lens@, r, i as int) =~= pieces_view(pieces@) + token_pieces(
                lens@,
                r,
                i + 1,
            ));
            start = end;
        }
        assert(pieces_view(pieces@) =~= pieces_view(pieces@) + token_pieces(lens@, r, lens@.len() as int));
        res.push(pieces);
        assert forall|u: int| 0 <= u < t + 1 implies pieces_view(#[trigger] res@[u]@) == token_pieces(
            lens@,
            rv[u],
            0,
        ) by {
            if u < t {
            }
        }
    }
    res
}

// ---------------------------------------------------------------------------
// Emphasis
/// The cuts of the span `span` (bytes `start..end` of the text) by the ranges from `k` on,
/// `cur` being where the last cut ended: each range that overlaps the span cuts out its part,
/// emphasized, after the plain part before it; what is left of the span stays plain. Each
/// cut is (span, first byte, end byte, emphasized).
pub open spec fn span_cuts(span: int, start: int, end: int, ranges: Seq<(int, int)>, k: int, cur: int) -> Seq<
    (int, int, int, bool),
>
    decreases ranges.len() - k,
{
    if k < 0 || k >= ranges.len() {
        if cur < end {
            seq![(span, cur, end, false)]
        } else {
            Seq::empty()
        }
    } else {
        let r = ranges[k];
        if r.0 < end && r.1 > start {
            let from = max_int(r.0, cur);
            let to = min_int(r.1, end);
            (if cur < from {
                seq![(span, cur, from, false)]
            } else {
                Seq::empty()
            }) + seq![(span, from, to, true)] + span_cuts(span, start, end, ranges, k + 1, to)
        } else {
            span_cuts(span, start, end, ranges, k + 1, cur)
        }
    }
}

/// The cuts of spans `i..` (see [`span_cuts`]).
pub open spec fn emphasis_cuts_from(lens: Seq<usize>, ranges: Seq<(int, int)>, i: int) -> Seq<(int, int, int, bool)>
    decreases lens.len() - i,
{
    if i < 0 || i >= lens.len() {
        Seq::empty()
    } else {
        let start = span_start(lens, i);
        span_cuts(i, start, start + lens[i], ranges, 0, start) + emphasis_cuts_from(lens, ranges, i + 1)
    }
}

/// Cuts as integers.
pub open spec fn cuts_view(v: Seq<(usize, usize, usize, bool)>) -> Seq<(int, int, int, bool)> {
    v.map_values(|c: (usize, usize, usize, bool)| (c.0 as int, c.1 as int, c.2 as int, c.3))
}

/// Appends the cuts of one span (see [`span_cuts`]).
fn push_span_cuts(
    span: usize,
    start: usize,
    end: usize,
    ranges: &Vec<Range<usize>>,
    out: &mut Vec<(usize, usize, usize, bool)>,
)
    requires
        start <= end,
    ensures
        cuts_view(final(out)@) == cuts_view(old(out)@) + span_cuts(
            span as int,
            start as int,
            end as int,
            ranges_view(ranges@),
            0,
            start as int,
        ),
{
    let ghost rv = ranges_view(ranges@);
    let ghost first = cuts_view(out@);
    let mut cur = start;
    for k in 0..ranges.len()
        invariant
            rv == ranges_view(ranges@),
            cuts_view(out@) + span_cuts(span as int, start as int, end as int, rv, k as int, cur as int)
                == first + span_cuts(span as int, start as int, end as int, rv, 0, start as int),
    {
        let r = &ranges[k];
        assert(rv[k as int] == (r.start as int, r.end as int));
        let ghost before = cuts_view(out@);
        if r.start < end && r.end > start {
            let from = if r.start > cur {
                r.start
            } else {
                cur
            };
            let to = if r.end < end {
                r.end
            } else {
                end
            };
            if cur < from {
                out.push((span, cur, from, false));
            }
            out.push((span, from, to, true));
            let ghost rest = span_cuts(span as int, start as int, end as int, rv, k + 1, to as int);
            if cur < from {
                assert(cuts_view(out@) =~= before + seq![(span as int, cur as int, from as int, false)]
                    + seq![(span as int, from as int, to as int, true)]);
            } else {
                assert(cuts_view(out@) =~= before + seq![(span as int, from as int, to as int, true)]);
            }
            assert(before + span_cuts(span as int, start as int, end as int, rv, k as int, cur as int)
                =~= cuts_view(out@) + rest);
            cur = to;
        }
    }
    let ghost before = cuts_view(out@);
    if cur < end {
        out.push((span, cur, end, false));
        assert(cuts_view(out@) =~= before + seq![(span as int, cur as int, end as int, false)]);
    } else {
        assert(cuts_view(out@) =~= before + Seq::<(int, int, int, bool)>::empty());
    }
}

/// Where emphasis cuts the spans of a text (see [`emphasis_cuts_from`]): each span, in
/// order, cut at the bounds of the marked byte ranges that overlap it.
pub fn emphasis_cuts(lens: &Vec<usize>, ranges: &Vec<Range<usize>>) -> (res: Vec<(usize, usize, usize, bool)>)
    requires
        total_len(lens@) <= usize::MAX,
    ensures
        cuts_view(res@) == emphasis_cuts_from(lens@, ranges_view(ranges@), 0),
{
    let ghost rv = ranges_view(ranges@);
    let mut out: Vec<(usize, usize, usize, bool)> = Vec::new();
    let mut start: usize = 0;
    for i in 0..lens.len()
        invariant
            rv == ranges_view(ranges@),
            total_len(lens@) <= usize::MAX,
            start == span_start(lens@, i as int),
            cuts_view(out@) + emphasis_cuts_from(lens@, rv, i as int) == emphasis_cuts_from(lens@, rv, 0),
    {
        proof {
            lemma_span_start_mono(lens@, i + 1, lens@.len() as int);
        }
        let end = start + lens[i];
        let ghost before = cuts_view(out@);
        push_span_cuts(i, start, end, ranges, &mut out);
        assert(before + emphasis_cuts_from(lens@, rv, i as int) =~= cuts_view(out@) + emphasis_cuts_from(
            lens@,
            rv,
            i + 1,
        ));
        start = end;
    }
    assert(cuts_view(out@) =~= cuts_view(out@) + emphasis_cuts_from(lens@, rv, lens@.len() as int));
    out
}

/// Ranges that are each in order and follow one another without overlap, as a word diff
/// marks them.
pub open spec fn ranges_in_order(rs: Seq<(int, int)>) -> bool {
    &&& forall|k: int| 0 <= k < rs.len() ==> (#[trigger] rs[k]).0 <= rs[k].1
    &&& forall|i: int, j: int| 0 <= i < j < rs.len() ==> (#[trigger] rs[i]).1 <= (#[trigger] rs[j]).0
}

/// Cuts that run from `a` to `b` without gap or overlap, each going forward.
pub open spec fn cuts_tile(cs: Seq<(int, int, int, bool)>, a: int, b: int) -> bool
    decreases cs.len(),
{
    if cs.len() == 0 {
        a == b
    } else {
        cs[0].1 == a && cs[0].1 <= cs[0].2 && cuts_tile(cs.drop_first(), cs[0].2, b)
    }
}

proof fn lemma_cuts_tile_concat(x: Seq<(int, int, int, bool)>, y: Seq<(int, int, int, bool)>, a: int, m: int, b: int)
    requires
        cuts_tile(x, a, m),
        cuts_tile(y, m, b),
    ensures
        cuts_tile(x + y, a, b),
    decreases x.len(),
{
    if x.len() > 0 {
        lemma_cuts_tile_concat(x.drop_first(), y, x[0].2, m, b);
        assert((x + y).drop_first() =~= x.drop_first() + y);
    } else {
        assert(x + y =~= y);
    }
}

proof fn lemma_span_cuts_tile(span: int, start: int, end: int, rs: Seq<(int, int)>, k: int, cur: int)
    requires
        ranges_in_order(rs),
        0 <= k <= rs.len(),
        start <= cur <= end,
        cur == start || forall|j: int| k <= j < rs.len() ==> cur <= #[trigger] rs[j].0,
    ensures
        cuts_tile(span_cuts(span, start, end, rs, k, cur), cur, end),
    decreases rs.len() - k,
{
    if k >= rs.len() {
        if cur < end {
            assert(cuts_tile(Seq::<(int, int, int, bool)>::empty(), end, end));
            assert(seq![(span, cur, end, false)].drop_first() =~= Seq::<(int, int, int, bool)>::empty());
        }
    } else {
        let r = rs[k];
        assert(r.0 <= r.1);
        if r.0 < end && r.1 > start {
            let from = max_int(r.0, cur);
            let to = min_int(r.1, end);
            assert(from <= to);
            assert forall|j: int| k + 1 <= j < rs.len() implies to <= #[trigger] rs[j].0 by {
                assert(rs[k].1 <= rs[j].0);
            }
            lemma_span_cuts_tile(span, start, end, rs, k + 1, to);
            let rest = span_cuts(span, start, end, rs, k + 1, to);
            let mid = seq![(span, from, to, true)];
            assert(mid.drop_first() =~= Seq::<(int, int, int, bool)>::empty());
            assert(cuts_tile(Seq::<(int, int, int, bool)>::empty(), to, to));
            assert(cuts_tile(mid, from, to));
            lemma_cuts_tile_concat(mid, rest, from, to, end);
            if cur < from {
                let head = seq![(span, cur, from, false)];
                assert(head.drop_first() =~= Seq::<(int, int, int, bool)>::empty());
                assert(cuts_tile(Seq::<(int, int, int, bool)>::empty(), from, from));
                assert(cuts_tile(head, cur, from));
                lemma_cuts_tile_concat(head, mid + rest, cur, from, end);
                assert(head + mid + rest =~= head + (mid + rest));
            } else {
                assert(Seq::<(int, int, int, bool)>::empty() + mid + rest =~= mid + rest);
            }
        } else {
            lemma_span_cuts_tile(span, start, end, rs, k + 1, cur);
        }
    }
}

/// Emphasis keeps the text: when the marked ranges are in order (as a word diff gives them),
/// the cuts of each span run over the span's bytes from its start to its end, without gap or
/// overlap.
pub proof fn law_emphasis_keeps_every_byte(span: int, start: int, end: int, ranges: Seq<(int, int)>)
    requires
        ranges_in_order(ranges),
        start <= end,
    ensures
        cuts_tile(span_cuts(span, start, end, ranges, 0, start), start, end),
{
    lemma_span_cuts_tile(span, start, end, ranges, 0, start);
}

// ---------------------------------------------------------------------------
// Indentation
/// How many bytes of span `i` fall within the first `trim` bytes of spans laid end to end:
/// what cutting a common indent of `trim` bytes removes from it.
pub open spec fn indent_cut(lens: Seq<usize>, trim: int, i: int) -> int {
    min_int(lens[i] as int, max_int(0, trim - span_start(lens, i)))
}

/// The bytes to cut from the front of each span (of lengths `lens`) to remove the first
/// `trim` bytes of their text (see [`indent_cut`]).
pub fn indent_cuts(lens: &Vec<usize>, trim: usize) -> (res: Vec<usize>)
    ensures
        res@.len() == lens@.len(),
        forall|i: int| 0 <= i < lens@.len() ==> (#[trigger] res@[i]) == indent_cut(lens@, trim as int, i),
{
    let mut skip = trim;
    let mut res: Vec<usize> = Vec::new();
    for i in 0..lens.len()
        invariant
            res@.len() == i,
            skip == max_int(0, trim - span_start(lens@, i as int)),
            forall|j: int| 0 <= j < i ==> (#[trigger] res@[j]) == indent_cut(lens@, trim as int, j),
    {
        assert(span_start(lens@, i + 1) == span_start(lens@, i as int) + lens@[i as int]);
        let cut = if skip < lens[i] {
            skip
        } else {
            lens[i]
        };
        res.push(cut);
        skip = skip - cut;
    }
    res
}

/// Whether the column `column` of the indentation shows a guide: every fourth column after
/// the first.
pub open spec fn guide_at(column: int) -> bool {
    column > 0 && column % 4 == 0
}

/// For each of `leading` spaces of indentation that begin at column `trim`, whether it is
/// drawn as an indent guide (see [`guide_at`]).
pub fn guide_columns(leading: usize, trim: usize) -> (res: Vec<bool>)
    requires
        trim + leading <= usize::MAX,
    ensures
        res@.len() == leading,
        forall|k: int| 0 <= k < leading ==> (#[trigger] res@[k]) == guide_at(trim + k),
{
    let mut res: Vec<bool> = Vec::new();
    for k in 0..leading
        invariant
            trim + leading <= usize::MAX,
            res@.len() == k,
            forall|j: int| 0 <= j < k ==> (#[trigger] res@[j]) == guide_at(trim + j),
    {
        let column = trim + k;
        res.push(column > 0 && column % 4 == 0);
    }
    res
}

} // verus!
