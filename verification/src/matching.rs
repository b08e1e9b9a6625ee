//! Which lines and words of a change correspond: alignment by position, when alignment
//! work is skipped, and the token ranges that a word diff marks as changed.
use std::ops::Range;
use std::time::Instant;

use similar::{capture_diff_slices_deadline, Algorithm, DiffTag};
use vstd::prelude::*;

use crate::tokens::{
    concat, grapheme_split, ranges_view, token_byte_ranges, token_ranges, token_texts, tokens_from,
};

verus! {

#[verifier::external_type_specification]
#[verifier::external_body]
pub struct ExInstant(Instant);

/// Rows that pair the `k`-th old line with the `k`-th new line, as far as the longer side.
pub open spec fn positional_spec(n: int, m: int) -> Seq<(Option<int>, Option<int>)> {
    Seq::new(
        if n < m {
            m as nat
        } else {
            n as nat
        },
        |k: int|
            (
                if k < n {
                    Some(k)
                } else {
                    None
                },
                if k < m {
                    Some(k)
                } else {
                    None
                },
            ),
    )
}

/// A pair of optional indices as integers.
pub open spec fn pair_ints(x: (Option<usize>, Option<usize>)) -> (Option<int>, Option<int>) {
    (
        match x.0 {
            Some(i) => Some(i as int),
            None => None,
        },
        match x.1 {
            Some(i) => Some(i as int),
            None => None,
        },
    )
}

/// Pairs the old and new lines of a change by position (see [`positional_spec`]).
pub fn positional_pairs(n: usize, m: usize) -> (res: Vec<(Option<usize>, Option<usize>)>)
    ensures
        res@.map_values(|x: (Option<usize>, Option<usize>)| pair_ints(x)) == positional_spec(
            n as int,
            m as int,
        ),
{
    let count = if n < m {
        m
    } else {
        n
    };
    let mut res: Vec<(Option<usize>, Option<usize>)> = Vec::new();
    for k in 0..count
        invariant
            count == (if n < m {
                m
            } else {
                n
            }),
            res@.map_values(|x: (Option<usize>, Option<usize>)| pair_ints(x)) == positional_spec(
                n as int,
                m as int,
            ).take(k as int),
    {
        let x = (
            if k < n {
                Some(k)
            } else {
                None
            },
            if k < m {
                Some(k)
            } else {
                None
            },
        );
        let ghost before = res@.map_values(|x: (Option<usize>, Option<usize>)| pair_ints(x));
        assert(pair_ints(x) == positional_spec(n as int, m as int)[k as int]);
        res.push(x);
        assert(res@.map_values(|x: (Option<usize>, Option<usize>)| pair_ints(x)) =~= before.push(pair_ints(x)));
        assert(res@.map_values(|x: (Option<usize>, Option<usize>)| pair_ints(x)) =~= positional_spec(
            n as int,
            m as int,
        ).take(k + 1));
    }
    assert(positional_spec(n as int, m as int).take(count as int) =~= positional_spec(
        n as int,
        m as int,
    ));
    res
}

/// Whether a change is aligned by position instead of by content: one side is empty, both
/// are single lines, or comparing every pair would take more than 4096 comparisons.
pub fn aligns_by_position(n: usize, m: usize) -> (res: bool)
    ensures
        res == (n == 0 || m == 0 || (n == 1 && m == 1) || n * m > 4096),
{
    if n == 0 || m == 0 || (n == 1 && m == 1) {
        return true;
    }
    if n > 4096 || m > 4096 {
        assert(n * m > 4096) by (nonlinear_arith)
            requires
                n >= 1 && m >= 1 && (n > 4096 || m > 4096),
        ;
        return true;
    }
    assert(n * m <= 4096 * 4096) by (nonlinear_arith)
        requires
            n <= 4096 && m <= 4096,
    ;
    n * m > 4096
}

// ---------------------------------------------------------------------------
// Changed words
/// The kind of a step of a diff.
#[derive(Clone, Copy, PartialEq, Eq, Debug, Structural)]
pub enum OpTag {
    Equal,
    Delete,
    Insert,
    Replace,
}

/// A step of a diff of two token sequences: its kind and the old and new token ranges it
/// covers.
#[derive(Clone, Copy, PartialEq, Eq, Debug, Structural)]
pub struct TokenOp {
    pub tag: OpTag,
    pub old_start: usize,
    pub old_end: usize,
    pub new_start: usize,
    pub new_end: usize,
}

/// Steps `k..` of a diff run over old tokens `i..n` and new tokens `j..m` in order: each step
/// starts where the one before ended, goes forward, and the last ends at the ends.
pub open spec fn steps_cover(ops: Seq<TokenOp>, n: int, m: int, k: int, i: int, j: int) -> bool
    decreases ops.len() - k,
{
    if k < 0 || k >= ops.len() {
        i == n && j == m
    } else {
        let op = ops[k];
        &&& op.old_start == i
        &&& op.new_start == j
        &&& op.old_start <= op.old_end
        &&& op.new_start <= op.new_end
        &&& steps_cover(ops, n, m, k + 1, op.old_end as int, op.new_end as int)
    }
}

/// An equal step covers as many old as new tokens, and they are equal one for one.
pub open spec fn equal_step(op: TokenOp, old: Seq<Seq<char>>, new: Seq<Seq<char>>) -> bool {
    &&& op.old_end - op.old_start == op.new_end - op.new_start
    &&& forall|d: int|
        0 <= d < op.old_end - op.old_start ==> #[trigger] old[op.old_start + d] == new[op.new_start + d]
}

/// Each equal step pairs equal tokens, one for one.
pub open spec fn equal_steps_match(ops: Seq<TokenOp>, old: Seq<Seq<char>>, new: Seq<Seq<char>>) -> bool {
    forall|k: int|
        0 <= k < ops.len() && (#[trigger] ops[k]).tag == OpTag::Equal ==> equal_step(ops[k], old, new)
}

/// A diff of two token sequences, whichever one came back: its steps run over both
/// sequences in order, and equal steps pair equal tokens.
pub open spec fn diff_of(ops: Seq<TokenOp>, old: Seq<Seq<char>>, new: Seq<Seq<char>>) -> bool {
    steps_cover(ops, old.len() as int, new.len() as int, 0, 0, 0) && equal_steps_match(ops, old, new)
}

/// The texts of the tokens of a line.
pub open spec fn line_tokens(text: Seq<char>) -> Seq<Seq<char>> {
    tokens_from(grapheme_split(text), 0).map_values(
        |t: (int, int)| concat(grapheme_split(text).subrange(t.0, t.1)),
    )
}

/// similar: `capture_diff_slices_deadline(Algorithm::Myers, old, new, Some(deadline))`, the
/// steps of a diff of the two token sequences. Which steps come back depends on the time left
/// before the deadline; stated is what holds of every diff it gives (it diffs over
/// `0..old.len()` and `0..new.len()`): the steps run over both sequences in order, and each
/// equal step pairs equal tokens.
#[verifier::external_body]
fn diff_token_texts(old: &Vec<String>, new: &Vec<String>, deadline: Instant) -> (res: Vec<TokenOp>)
    ensures
        diff_of(res@, old@.map_values(|s: String| s@), new@.map_values(|s: String| s@)),
{
    let old: Vec<&str> = old.iter().map(|s| s.as_str()).collect();
    let new: Vec<&str> = new.iter().map(|s| s.as_str()).collect();
    let ops = capture_diff_slices_deadline(Algorithm::Myers, &old, &new, Some(deadline));
    ops.iter().map(|op| {
        let (tag, o, n) = op.as_tag_tuple();
        let tag = match tag {
            DiffTag::Equal => OpTag::Equal,
            DiffTag::Delete => OpTag::Delete,
            DiffTag::Insert => OpTag::Insert,
            DiffTag::Replace => OpTag::Replace,
        };
        TokenOp { tag, old_start: o.start, old_end: o.end, new_start: n.start, new_end: n.end }
    }).collect()
}

/// The byte range covered by tokens `a` up to `b`, when they are tokens of the line.
pub open spec fn covered(ranges: Seq<(int, int)>, a: int, b: int) -> Option<(int, int)> {
    if 0 <= a < b <= ranges.len() {
        Some((ranges[a].0, ranges[b - 1].1))
    } else {
        None
    }
}

/// Adds the range covered by tokens `a` up to `b`, if any.
pub open spec fn add_covered(out: Seq<(int, int)>, ranges: Seq<(int, int)>, a: int, b: int) -> Seq<(int, int)> {
    match covered(ranges, a, b) {
        Some(r) => out.push(r),
        None => out,
    }
}

/// The changed byte ranges of the old and new lines after the first `k` steps of a diff:
/// each step that is not equal marks the tokens it removes and the tokens it adds (steps
/// outside the lines' tokens mark nothing).
pub open spec fn changed_spec(
    ops: Seq<TokenOp>,
    old_ranges: Seq<(int, int)>,
    new_ranges: Seq<(int, int)>,
    k: int,
) -> (Seq<(int, int)>, Seq<(int, int)>)
    decreases k,
{
    if k <= 0 {
        (Seq::empty(), Seq::empty())
    } else {
        let prev = changed_spec(ops, old_ranges, new_ranges, k - 1);
        let op = ops[k - 1];
        if op.tag == OpTag::Equal {
            prev
        } else {
            (
                add_covered(prev.0, old_ranges, op.old_start as int, op.old_end as int),
                add_covered(prev.1, new_ranges, op.new_start as int, op.new_end as int),
            )
        }
    }
}

/// Pushes the range covered by tokens `a` up to `b`, if any.
fn push_covered(out: &mut Vec<Range<usize>>, ranges: &Vec<Range<usize>>, a: usize, b: usize)
    ensures
        ranges_view(final(out)@) == add_covered(ranges_view(old(out)@), ranges_view(ranges@), a as int, b as int),
{
    if a < b && b <= ranges.len() {
        let ghost before = ranges_view(out@);
        out.push(Range { start: ranges[a].start, end: ranges[b - 1].end });
        assert(ranges_view(out@) =~= before.push((ranges@[a as int].start as int, ranges@[b - 1].end as int)));
    }
}

/// The changed byte ranges of two lines given the steps of a diff of their tokens (see
/// [`changed_spec`]).
pub fn changed_ranges(
    old_ranges: &Vec<Range<usize>>,
    new_ranges: &Vec<Range<usize>>,
    ops: &Vec<TokenOp>,
) -> (res: (Vec<Range<usize>>, Vec<Range<usize>>))
    ensures
        (ranges_view(res.0@), ranges_view(res.1@)) == changed_spec(
            ops@,
            ranges_view(old_ranges@),
            ranges_view(new_ranges@),
            ops@.len() as int,
        ),
{
    let mut removed: Vec<Range<usize>> = Vec::new();
    let mut added: Vec<Range<usize>> = Vec::new();
    for k in 0..ops.len()
        invariant
            (ranges_view(removed@), ranges_view(added@)) == changed_spec(
                ops@,
                ranges_view(old_ranges@),
                ranges_view(new_ranges@),
                k as int,
            ),
    {
        let op = ops[k];
        if op.tag != OpTag::Equal {
            push_covered(&mut removed, old_ranges, op.old_start, op.old_end);
            push_covered(&mut added, new_ranges, op.new_start, op.new_end);
        }
    }
    (removed, added)
}

/// The byte ranges of the words that differ between two lines: the lines' tokens are
/// compared with a diff that may stop early at `deadline`; the result is what
/// [`changed_ranges`] makes of the diff that came back.
pub fn changed_words(before: &str, after: &str, deadline: Instant) -> (res: (
    Vec<Range<usize>>,
    Vec<Range<usize>>,
))
    ensures
        exists|ops: Seq<TokenOp>|
            diff_of(ops, line_tokens(before@), line_tokens(after@)) && (ranges_view(res.0@), ranges_view(
                res.1@,
            )) == #[trigger] changed_spec(
                ops,
                token_byte_ranges(grapheme_split(before@)),
                token_byte_ranges(grapheme_split(after@)),
                ops.len() as int,
            ),
        line_tokens(before@) != line_tokens(after@) ==> res.0@.len() > 0 || res.1@.len() > 0,
{
    let old_ranges = token_ranges(before);
    let new_ranges = token_ranges(after);
    let old = token_texts(before);
    let new = token_texts(after);
    let ops = diff_token_texts(&old, &new, deadline);
    let res = changed_ranges(&old_ranges, &new_ranges, &ops);
    assert((ranges_view(res.0@), ranges_view(res.1@)) == changed_spec(
        ops@,
        token_byte_ranges(grapheme_split(before@)),
        token_byte_ranges(grapheme_split(after@)),
        ops@.len() as int,
    ));
    proof {
        let og = grapheme_split(before@);
        let ng = grapheme_split(after@);
        assert(token_byte_ranges(og).len() == line_tokens(before@).len());
        assert(token_byte_ranges(ng).len() == line_tokens(after@).len());
        assert(old@.map_values(|s: String| s@) == line_tokens(before@));
        assert(new@.map_values(|s: String| s@) == line_tokens(after@));
        if line_tokens(before@) != line_tokens(after@) {
            law_differing_tokens_are_marked(
                ops@,
                line_tokens(before@),
                line_tokens(after@),
                token_byte_ranges(og),
                token_byte_ranges(ng),
            );
        }
    }
    res
}

/// The steps of a diff from step `k` on, starting at old token `i` and new token `j`, stay
/// within both sequences.
proof fn lemma_steps_within(ops: Seq<TokenOp>, n: int, m: int, k: int, i: int, j: int)
    requires
        0 <= k <= ops.len(),
        0 <= i,
        0 <= j,
        steps_cover(ops, n, m, k, i, j),
    ensures
        i <= n,
        j <= m,
        forall|q: int|
            k <= q < ops.len() ==> 0 <= (#[trigger] ops[q]).old_start <= ops[q].old_end <= n && 0
                <= ops[q].new_start <= ops[q].new_end <= m,
    decreases ops.len() - k,
{
    if k < ops.len() {
        lemma_steps_within(ops, n, m, k + 1, ops[k].old_end as int, ops[k].new_end as int);
    }
}

/// When every step from `k` on that is not equal covers no token, the old tokens from `i` on
/// are the new tokens from `j` on.
proof fn lemma_unmarked_steps_keep_tokens(
    ops: Seq<TokenOp>,
    old: Seq<Seq<char>>,
    new: Seq<Seq<char>>,
    k: int,
    i: int,
    j: int,
)
    requires
        0 <= k <= ops.len(),
        0 <= i,
        0 <= j,
        steps_cover(ops, old.len() as int, new.len() as int, k, i, j),
        equal_steps_match(ops, old, new),
        forall|q: int|
            k <= q < ops.len() && (#[trigger] ops[q]).tag != OpTag::Equal ==> ops[q].old_start == ops[q].old_end
                && ops[q].new_start == ops[q].new_end,
    ensures
        old.subrange(i, old.len() as int) == new.subrange(j, new.len() as int),
    decreases ops.len() - k,
{
    lemma_steps_within(ops, old.len() as int, new.len() as int, k, i, j);
    if k < ops.len() {
        let op = ops[k];
        let (oe, ne) = (op.old_end as int, op.new_end as int);
        lemma_unmarked_steps_keep_tokens(ops, old, new, k + 1, oe, ne);
        if op.tag == OpTag::Equal {
            assert(equal_step(op, old, new));
            assert(old.subrange(i, oe) =~= new.subrange(j, ne)) by {
                assert forall|d: int| 0 <= d < oe - i implies old.subrange(i, oe)[d] == new.subrange(j, ne)[d] by {
                    assert(old[op.old_start + d] == new[op.new_start + d]);
                }
            }
        }
        assert(old.subrange(i, old.len() as int) =~= old.subrange(i, oe) + old.subrange(oe, old.len() as int));
        assert(new.subrange(j, new.len() as int) =~= new.subrange(j, ne) + new.subrange(ne, new.len() as int));
    }
}

/// When the first `k` steps mark nothing, each of them is equal or covers no token of either
/// line.
proof fn lemma_nothing_marked(ops: Seq<TokenOp>, old_ranges: Seq<(int, int)>, new_ranges: Seq<(int, int)>, k: int)
    requires
        0 <= k <= ops.len(),
        changed_spec(ops, old_ranges, new_ranges, k).0.len() == 0,
        changed_spec(ops, old_ranges, new_ranges, k).1.len() == 0,
    ensures
        forall|q: int|
            0 <= q < k && (#[trigger] ops[q]).tag != OpTag::Equal ==> covered(
                old_ranges,
                ops[q].old_start as int,
                ops[q].old_end as int,
            ) is None && covered(new_ranges, ops[q].new_start as int, ops[q].new_end as int) is None,
    decreases k,
{
    if k > 0 {
        let prev = changed_spec(ops, old_ranges, new_ranges, k - 1);
        let op = ops[k - 1];
        if op.tag != OpTag::Equal {
            assert(add_covered(prev.0, old_ranges, op.old_start as int, op.old_end as int).len() >= prev.0.len());
            assert(add_covered(prev.1, new_ranges, op.new_start as int, op.new_end as int).len() >= prev.1.len());
        }
        lemma_nothing_marked(ops, old_ranges, new_ranges, k - 1);
    }
}

/// Two lines whose tokens differ always have a word marked as changed, whatever diff came
/// back: a diff whose steps mark nothing would pair the old tokens one for one with equal new
/// tokens.
pub proof fn law_differing_tokens_are_marked(
    ops: Seq<TokenOp>,
    old: Seq<Seq<char>>,
    new: Seq<Seq<char>>,
    old_ranges: Seq<(int, int)>,
    new_ranges: Seq<(int, int)>,
)
    requires
        diff_of(ops, old, new),
        old_ranges.len() == old.len(),
        new_ranges.len() == new.len(),
        old != new,
    ensures
        changed_spec(ops, old_ranges, new_ranges, ops.len() as int).0.len() > 0 || changed_spec(
            ops,
            old_ranges,
            new_ranges,
            ops.len() as int,
        ).1.len() > 0,
{
    let c = changed_spec(ops, old_ranges, new_ranges, ops.len() as int);
    if c.0.len() == 0 && c.1.len() == 0 {
        lemma_nothing_marked(ops, old_ranges, new_ranges, ops.len() as int);
        lemma_steps_within(ops, old.len() as int, new.len() as int, 0, 0, 0);
        lemma_unmarked_steps_keep_tokens(ops, old, new, 0, 0, 0);
        assert(old.subrange(0, old.len() as int) =~= old);
        assert(new.subrange(0, new.len() as int) =~= new);
    }
}

} // verus!
