//! How a patch is laid out for review: the view modes, the indentation shared by each hunk,
//! which removed and added lines face each other, and where each screen row comes from.
use vstd::prelude::*;

use crate::git::{DiffLine, LineKind};
use crate::text::{chars_of, starts_with, starts_with_exec, string_from_chars, tail_of};
use crate::tokens::{all_ws, code_indent, leading_spaces};

verus! {

/// Columns of a side's gutter in the side-by-side view.
pub const SPLIT_GUTTER: u16 = 8;

/// Columns of the gutter in the unified view.
pub const UNIFIED_GUTTER: u16 = 14;

/// How a patch is shown.
#[derive(Clone, Copy, Debug, PartialEq, Eq, Structural)]
pub enum ViewMode {
    /// The old and new sides next to each other.
    Split,
    /// One column in the order of the patch.
    Unified,
}

impl Default for ViewMode {
    fn default() -> (res: ViewMode)
        ensures
            res == ViewMode::Split,
    {
        ViewMode::Split
    }
}

impl ViewMode {
    /// The name shown for the mode.
    pub fn label(self) -> (res: &'static str)
        ensures
            res@ == match self {
                ViewMode::Split => "Side by side"@,
                ViewMode::Unified => "Unified"@,
            },
    {
        match self {
            ViewMode::Split => "Side by side",
            ViewMode::Unified => "Unified",
        }
    }
}

/// The gutter sign of a line: `+` for added, `-` for removed, a space otherwise.
pub open spec fn marker_spec(kind: LineKind) -> char {
    match kind {
        LineKind::Added => '+',
        LineKind::Removed => '-',
        _ => ' ',
    }
}

/// The gutter sign of a line (see [`marker_spec`]).
pub fn marker(kind: LineKind) -> (res: char)
    ensures
        res == marker_spec(kind),
{
    match kind {
        LineKind::Added => '+',
        LineKind::Removed => '-',
        _ => ' ',
    }
}

// ---------------------------------------------------------------------------
// The code of a patch line
/// A line that shows code: added, removed or context.
pub open spec fn is_code_kind(k: LineKind) -> bool {
    k == LineKind::Added || k == LineKind::Removed || k == LineKind::Context
}

/// A code line starts with its one-byte sign.
pub open spec fn line_wf(d: DiffLine) -> bool {
    is_code_kind(d.kind) ==> d.text@.len() > 0 && (d.text@[0] as u32) < 0x80
}

/// Every line of a patch is well formed.
pub open spec fn patch_wf(p: Seq<DiffLine>) -> bool {
    forall|i: int| 0 <= i < p.len() ==> line_wf(#[trigger] p[i])
}

/// The code a line shows: a code line without its sign, any other line whole.
pub open spec fn code_text(d: DiffLine) -> Seq<char> {
    if is_code_kind(d.kind) {
        d.text@.drop_first()
    } else {
        d.text@
    }
}

/// The code a line shows (see [`code_text`]).
pub fn line_code_text(d: &DiffLine) -> (res: String)
    requires
        line_wf(*d),
    ensures
        res@ == code_text(*d),
{
    let cs = chars_of(d.text.as_str());
    if d.kind == LineKind::Added || d.kind == LineKind::Removed || d.kind == LineKind::Context {
        let rest = tail_of(&cs, 1);
        assert(rest@ =~= d.text@.drop_first());
        string_from_chars(&rest)
    } else {
        string_from_chars(&cs)
    }
}

/// A file header of the patch (`diff --git`, `index`, `---` and `+++` lines before the first
/// hunk), which the review does not show.
pub open spec fn is_file_header_spec(kind: LineKind, text: Seq<char>) -> bool {
    kind == LineKind::Header && (starts_with(text, "diff --git "@) || starts_with(text, "index "@)
        || starts_with(text, "--- "@) || starts_with(text, "+++ "@))
}

/// Whether a line is a file header (see [`is_file_header_spec`]).
pub fn is_file_header(kind: LineKind, text: &str) -> (res: bool)
    ensures
        res == is_file_header_spec(kind, text@),
{
    if kind != LineKind::Header {
        return false;
    }
    let cs = chars_of(text);
    starts_with_exec(&cs, &chars_of("diff --git ")) || starts_with_exec(&cs, &chars_of("index "))
        || starts_with_exec(&cs, &chars_of("--- ")) || starts_with_exec(&cs, &chars_of("+++ "))
}

// ---------------------------------------------------------------------------
// The indentation shared by a hunk
/// A line whose indentation counts: it is numbered and not blank.
pub open spec fn counts_for_indent(d: DiffLine) -> bool {
    (d.old is Some || d.new is Some) && !all_ws(code_text(d))
}

/// The least indentation of the counting lines from `a` up to `b`.
pub open spec fn min_indent(p: Seq<DiffLine>, a: int, b: int) -> Option<int>
    decreases b - a,
{
    if b <= a {
        None
    } else {
        let rest = min_indent(p, a, b - 1);
        if counts_for_indent(p[b - 1]) {
            let x = leading_spaces(code_text(p[b - 1]));
            match rest {
                Some(y) => Some(
                    if y < x {
                        y
                    } else {
                        x
                    },
                ),
                None => Some(x),
            }
        } else {
            rest
        }
    }
}

/// The first line of the section of line `i`: sections begin at the start and at each hunk
/// header.
pub open spec fn section_start(p: Seq<DiffLine>, i: int) -> int
    decreases i,
{
    if i <= 0 {
        0
    } else if p[i].kind == LineKind::Hunk {
        i
    } else {
        section_start(p, i - 1)
    }
}

/// Where the section of line `i` ends: at the next hunk header, or at the end.
pub open spec fn section_end(p: Seq<DiffLine>, i: int) -> int
    decreases p.len() - i,
{
    if i + 1 >= p.len() {
        p.len() as int
    } else if p[i + 1].kind == LineKind::Hunk {
        i + 1
    } else {
        section_end(p, i + 1)
    }
}

/// The indentation trimmed from line `i`: the least indentation of the counting lines of its
/// section, or none.
pub open spec fn indent_of(p: Seq<DiffLine>, i: int) -> int {
    match min_indent(p, section_start(p, i), section_end(p, i)) {
        Some(x) => x,
        None => 0,
    }
}

/// Lines of one section start where it starts.
proof fn lemma_section_start(p: Seq<DiffLine>, s: int, i: int)
    requires
        0 <= s <= i < p.len(),
        s == 0 || p[s].kind == LineKind::Hunk,
        forall|j: int| s < j <= i ==> (#[trigger] p[j]).kind != LineKind::Hunk,
    ensures
        section_start(p, i) == s,
    decreases i,
{
    if i > s {
        lemma_section_start(p, s, i - 1);
    }
}

/// Lines of one section end where it ends.
proof fn lemma_section_end(p: Seq<DiffLine>, e: int, i: int)
    requires
        0 <= i < e <= p.len(),
        e == p.len() || p[e].kind == LineKind::Hunk,
        forall|j: int| i < j < e ==> (#[trigger] p[j]).kind != LineKind::Hunk,
    ensures
        section_end(p, i) == e,
    decreases e - i,
{
    if i + 1 < e {
        lemma_section_end(p, e, i + 1);
    }
}

/// Whether a line counts for the indentation, and its indentation.
fn indent_facts(d: &DiffLine) -> (res: (bool, usize))
    requires
        line_wf(*d),
    ensures
        res.0 == counts_for_indent(*d),
        res.1 == leading_spaces(code_text(*d)),
{
    let code = line_code_text(d);
    let cs = chars_of(code.as_str());
    let mut blank = true;
    for k in 0..cs.len()
        invariant
            cs@ == code_text(*d),
            blank == forall|j: int| 0 <= j < k ==> crate::text::is_ws(#[trigger] cs@[j]),
    {
        if !crate::text::is_whitespace(cs[k]) {
            blank = false;
        }
    }
    ((d.old.is_some() || d.new.is_some()) && !blank, code_indent(code.as_str()))
}

/// The indentation trimmed from each line: within each section (from a hunk header to the
/// next), the least indentation of its numbered, non-blank lines (see [`indent_of`]).
pub fn section_indents(patch: &Vec<DiffLine>) -> (res: Vec<usize>)
    requires
        patch_wf(patch@),
    ensures
        res@.len() == patch@.len(),
        forall|i: int| 0 <= i < patch@.len() ==> #[trigger] res@[i] == indent_of(patch@, i),
{
    let n = patch.len();
    let ghost p = patch@;
    let mut res: Vec<usize> = Vec::new();
    let mut start: usize = 0;
    let mut min: Option<usize> = None;
    let mut i: usize = 0;
    while i < n
        invariant
            n == p.len(),
            p == patch@,
            patch_wf(p),
            start <= i <= n,
            res@.len() == start,
            i == n ==> start == n,
            start == 0 || start == n || p[start as int].kind == LineKind::Hunk,
            forall|j: int| start < j <= i && j < n ==> (#[trigger] p[j]).kind != LineKind::Hunk,
            forall|k: int| 0 <= k < start ==> #[trigger] res@[k] == indent_of(p, k),
            match (min, min_indent(p, start as int, i as int)) {
                (Some(x), Some(y)) => x == y,
                (None, None) => true,
                _ => false,
            },
        decreases n - i,
    {
        let (counts, ind) = indent_facts(&patch[i]);
        assert(line_wf(p[i as int]));
        min = if counts {
            match min {
                Some(m) => if m < ind {
                    Some(m)
                } else {
                    Some(ind)
                },
                None => Some(ind),
            }
        } else {
            min
        };
        i += 1;
        if i == n || patch[i].kind == LineKind::Hunk {
            let value = match min {
                Some(m) => m,
                None => 0,
            };
            let ghost s = start as int;
            let ghost e = i as int;
            proof {
                assert forall|k: int| s <= k < e implies indent_of(p, k) == value by {
                    lemma_section_start(p, s, k);
                    lemma_section_end(p, e, k);
                }
            }
            while res.len() < i
                invariant
                    start <= res@.len() <= i,
                    forall|k: int| 0 <= k < start ==> #[trigger] res@[k] == indent_of(p, k),
                    forall|k: int| start <= k < res@.len() ==> #[trigger] res@[k] == value,
                decreases i - res@.len(),
            {
                res.push(value);
            }
            start = i;
            min = None;
        }
    }
    res
}


// ---------------------------------------------------------------------------
// Which lines face each other
/// A removed or added line.
pub open spec fn is_change(d: DiffLine) -> bool {
    d.kind == LineKind::Removed || d.kind == LineKind::Added
}

/// A `\ No newline at end of file` note.
pub open spec fn is_note(d: DiffLine) -> bool {
    starts_with(code_text(d), "\\ No newline"@)
}

/// Line `i` continues a run of changes: it is a change or a note.
pub open spec fn in_run(p: Seq<DiffLine>, i: int) -> bool {
    is_change(p[i]) || is_note(p[i])
}

/// Where the run of changes that holds line `i` ends.
pub open spec fn run_end(p: Seq<DiffLine>, i: int) -> int
    decreases p.len() - i,
{
    if 0 <= i < p.len() && in_run(p, i) {
        run_end(p, i + 1)
    } else {
        i
    }
}

/// The kind of the last change before line `k` in the run from `s` (context when none).
pub open spec fn last_change_kind(p: Seq<DiffLine>, s: int, k: int) -> LineKind
    decreases k - s,
{
    if k <= s {
        LineKind::Context
    } else if is_change(p[k - 1]) {
        p[k - 1].kind
    } else {
        last_change_kind(p, s, k - 1)
    }
}

/// The removed lines, added lines, and notes after removed and after added lines of the
/// run from `s` up to `k`.
pub open spec fn run_lists(p: Seq<DiffLine>, s: int, k: int) -> (Seq<int>, Seq<int>, Seq<int>, Seq<int>)
    decreases k - s,
{
    if k <= s {
        (Seq::empty(), Seq::empty(), Seq::empty(), Seq::empty())
    } else {
        let l = run_lists(p, s, k - 1);
        let j = k - 1;
        if p[j].kind == LineKind::Removed {
            (l.0.push(j), l.1, l.2, l.3)
        } else if p[j].kind == LineKind::Added {
            (l.0, l.1.push(j), l.2, l.3)
        } else if last_change_kind(p, s, j) == LineKind::Removed {
            (l.0, l.1, l.2.push(j), l.3)
        } else {
            (l.0, l.1, l.2, l.3.push(j))
        }
    }
}

/// A stretch of the patch that the side-by-side view lays out together.
pub enum Block {
    /// A line shown on both sides.
    Same(usize),
    /// A run of removed and added lines with the notes among them: the removed lines, the
    /// added lines, the notes after removed lines, and the notes after added lines.
    Change { removed: Vec<usize>, added: Vec<usize>, old_notes: Vec<usize>, new_notes: Vec<usize> },
}

/// A block in the model.
pub enum BlockSpec {
    Same(int),
    Change(Seq<int>, Seq<int>, Seq<int>, Seq<int>),
}

/// Indices as integers.
pub open spec fn ints(v: Seq<usize>) -> Seq<int> {
    v.map_values(|i: usize| i as int)
}

impl View for Block {
    type V = BlockSpec;

    open spec fn view(&self) -> BlockSpec {
        match self {
            Block::Same(i) => BlockSpec::Same(*i as int),
            Block::Change { removed, added, old_notes, new_notes } => BlockSpec::Change(
                ints(removed@),
                ints(added@),
                ints(old_notes@),
                ints(new_notes@),
            ),
        }
    }
}

/// The blocks from line `i` on: file headers are skipped, a change starts a run that goes on
/// through changes and notes, and any other line stands alone.
pub open spec fn blocks_from(p: Seq<DiffLine>, i: int) -> Seq<BlockSpec>
    decreases p.len() - i,
{
    if i < 0 || i >= p.len() {
        Seq::empty()
    } else if is_file_header_spec(p[i].kind, code_text(p[i])) {
        blocks_from(p, i + 1)
    } else if is_change(p[i]) {
        let e = run_end(p, i);
        if e <= i || e > p.len() {
            Seq::empty()
        } else {
            let l = run_lists(p, i, e);
            seq![BlockSpec::Change(l.0, l.1, l.2, l.3)] + blocks_from(p, e)
        }
    } else {
        seq![BlockSpec::Same(i)] + blocks_from(p, i + 1)
    }
}

proof fn lemma_run_end(p: Seq<DiffLine>, i: int)
    requires
        0 <= i <= p.len(),
    ensures
        i <= run_end(p, i) <= p.len(),
        forall|j: int| i <= j < run_end(p, i) ==> in_run(p, j),
        run_end(p, i) < p.len() ==> !in_run(p, run_end(p, i)),
    decreases p.len() - i,
{
    if i < p.len() && in_run(p, i) {
        lemma_run_end(p, i + 1);
    }
}

/// Whether line `d` is a note.
fn is_note_exec(d: &DiffLine) -> (res: bool)
    requires
        line_wf(*d),
    ensures
        res == is_note(*d),
{
    let code = line_code_text(d);
    starts_with_exec(&chars_of(code.as_str()), &chars_of("\\ No newline"))
}

/// Pushes an index, keeping the integer view.
fn push_index(v: &mut Vec<usize>, i: usize)
    ensures
        ints(final(v)@) == ints(old(v)@).push(i as int),
{
    v.push(i);
    assert(ints(v@) =~= ints(old(v)@).push(i as int));
}

/// The blocks of a patch (see [`blocks_from`]); the side-by-side view pairs the lines of
/// each change block.
pub fn change_blocks(patch: &Vec<DiffLine>) -> (res: Vec<Block>)
    requires
        patch_wf(patch@),
    ensures
        res@.map_values(|b: Block| b@) == blocks_from(patch@, 0),
{
    let n = patch.len();
    let ghost p = patch@;
    let mut res: Vec<Block> = Vec::new();
    let mut index: usize = 0;
    while index < n
        invariant
            n == p.len(),
            p == patch@,
            patch_wf(p),
            index <= n,
            res@.map_values(|b: Block| b@) + blocks_from(p, index as int) == blocks_from(p, 0),
        decreases n - index,
    {
        let line = &patch[index];
        assert(line_wf(p[index as int]));
        let code = line_code_text(line);
        let ghost before = res@.map_values(|b: Block| b@);
        if is_file_header(line.kind, code.as_str()) {
            index += 1;
        } else if line.kind == LineKind::Removed || line.kind == LineKind::Added {
            let start = index;
            let mut removed: Vec<usize> = Vec::new();
            let mut added: Vec<usize> = Vec::new();
            let mut old_notes: Vec<usize> = Vec::new();
            let mut new_notes: Vec<usize> = Vec::new();
            let mut previous = LineKind::Context;
            proof {
                lemma_run_end(p, start as int);
            }
            while index < n && (patch[index].kind == LineKind::Removed || patch[index].kind
                == LineKind::Added || is_note_exec(&patch[index]))
                invariant
                    n == p.len(),
                    p == patch@,
                    patch_wf(p),
                    start <= index <= run_end(p, start as int) <= n,
                    start < n,
                    forall|j: int| start <= j < run_end(p, start as int) ==> in_run(p, j),
                    run_end(p, start as int) < n ==> !in_run(p, run_end(p, start as int)),
                    previous == last_change_kind(p, start as int, index as int),
                    (ints(removed@), ints(added@), ints(old_notes@), ints(new_notes@)) == run_lists(
                        p,
                        start as int,
                        index as int,
                    ),
                decreases n - index,
            {
                assert(line_wf(p[index as int]));
                if patch[index].kind == LineKind::Removed {
                    push_index(&mut removed, index);
                    previous = LineKind::Removed;
                } else if patch[index].kind == LineKind::Added {
                    push_index(&mut added, index);
                    previous = LineKind::Added;
                } else if previous == LineKind::Removed {
                    push_index(&mut old_notes, index);
                } else {
                    push_index(&mut new_notes, index);
                }
                index += 1;
            }
            proof {
                if index < run_end(p, start as int) {
                    assert(in_run(p, index as int));
                }
                assert(index == run_end(p, start as int));
            }
            res.push(Block::Change { removed, added, old_notes, new_notes });
            proof {
                let l = run_lists(p, start as int, index as int);
                assert(res@.map_values(|b: Block| b@) =~= before.push(
                    BlockSpec::Change(l.0, l.1, l.2, l.3),
                ));
                assert(before.push(BlockSpec::Change(l.0, l.1, l.2, l.3)) + blocks_from(
                    p,
                    index as int,
                ) =~= before + (seq![BlockSpec::Change(l.0, l.1, l.2, l.3)] + blocks_from(
                    p,
                    index as int,
                )));
            }
        } else {
            res.push(Block::Same(index));
            proof {
                assert(res@.map_values(|b: Block| b@) =~= before.push(BlockSpec::Same(index as int)));
                assert(before.push(BlockSpec::Same(index as int)) + blocks_from(p, index + 1)
                    =~= before + (seq![BlockSpec::Same(index as int)] + blocks_from(p, index + 1)));
            }
            index += 1;
        }
    }
    assert(res@.map_values(|b: Block| b@) + Seq::<BlockSpec>::empty() =~= res@.map_values(
        |b: Block| b@,
    ));
    res
}


/// A pair of optional line indices as integers.
pub open spec fn pair_view(x: (Option<usize>, Option<usize>)) -> (Option<int>, Option<int>) {
    (
        match x.0 {
            Some(i) => Some(i as int),
            None => None,
        },
        match x.1 {
            Some(i) => Some(i as int),
            None => None,
        },
    )
}

/// Pairs of optional line indices as integers.
pub open spec fn pairs_view(v: Seq<(Option<usize>, Option<usize>)>) -> Seq<(Option<int>, Option<int>)> {
    v.map_values(|x: (Option<usize>, Option<usize>)| pair_view(x))
}

/// The entry of `v` at an optional position.
pub open spec fn opt_at(v: Seq<int>, o: Option<usize>) -> Option<int> {
    match o {
        Some(i) => Some(v[i as int]),
        None => None,
    }
}

/// The entry of `v` at `k`, when there is one.
pub open spec fn get_at(v: Seq<int>, k: int) -> Option<int> {
    if 0 <= k < v.len() {
        Some(v[k])
    } else {
        None
    }
}

/// An alignment of a change block: each side's position within the block's removed and
/// added lines, in range.
pub open spec fn alignment_fits(b: BlockSpec, al: Seq<(Option<usize>, Option<usize>)>) -> bool {
    match b {
        BlockSpec::Same(_) => true,
        BlockSpec::Change(r, a, _, _) => forall|k: int|
            0 <= k < al.len() ==> (match (#[trigger] al[k]).0 {
                Some(i) => i < r.len(),
                None => true,
            }) && (match al[k].1 {
                Some(i) => i < a.len(),
                None => true,
            }),
    }
}

/// The rows of a block, as (old line, new line): a lone line faces itself; a change block
/// follows its alignment (positions among its removed and added lines), then pairs its notes
/// in order.
pub open spec fn block_pairs_spec(b: BlockSpec, al: Seq<(Option<usize>, Option<usize>)>) -> Seq<
    (Option<int>, Option<int>),
> {
    match b {
        BlockSpec::Same(i) => seq![(Some(i), Some(i))],
        BlockSpec::Change(r, a, o, n) => al.map_values(
            |x: (Option<usize>, Option<usize>)| (opt_at(r, x.0), opt_at(a, x.1)),
        ) + Seq::new(
            if o.len() < n.len() {
                n.len()
            } else {
                o.len()
            },
            |k: int| (get_at(o, k), get_at(n, k)),
        ),
    }
}

/// The optional entry of an index list.
fn index_at(v: &Vec<usize>, o: Option<usize>) -> (res: Option<usize>)
    requires
        o matches Some(i) ==> i < v@.len(),
    ensures
        match res {
            Some(x) => opt_at(ints(v@), o) == Some(x as int),
            None => opt_at(ints(v@), o) is None,
        },
{
    match o {
        Some(i) => Some(v[i]),
        None => None,
    }
}

/// The rows of a block as (old line, new line), given how the block's removed lines align
/// with its added lines (see [`block_pairs_spec`]).
pub fn block_pairs(block: &Block, alignment: &Vec<(Option<usize>, Option<usize>)>) -> (res: Vec<
    (Option<usize>, Option<usize>),
>)
    requires
        alignment_fits(block@, alignment@),
    ensures
        pairs_view(res@) == block_pairs_spec(block@, alignment@),
{
    let mut res: Vec<(Option<usize>, Option<usize>)> = Vec::new();
    match block {
        Block::Same(i) => {
            res.push((Some(*i), Some(*i)));
            assert(pairs_view(res@) =~= seq![(Some(*i as int), Some(*i as int))]);
        },
        Block::Change { removed, added, old_notes, new_notes } => {
            let ghost r = ints(removed@);
            let ghost a = ints(added@);
            let ghost f = |x: (Option<usize>, Option<usize>)| (opt_at(r, x.0), opt_at(a, x.1));
            for k in 0..alignment.len()
                invariant
                    alignment_fits(block@, alignment@),
                    block@ == BlockSpec::Change(r, a, ints(old_notes@), ints(new_notes@)),
                    r == ints(removed@),
                    a == ints(added@),
                    f == (|x: (Option<usize>, Option<usize>)| (opt_at(r, x.0), opt_at(a, x.1))),
                    pairs_view(res@) == alignment@.take(k as int).map_values(f),
            {
                let (left, right) = alignment[k];
                let x = index_at(removed, left);
                let y = index_at(added, right);
                let ghost before = pairs_view(res@);
                res.push((x, y));
                assert(pairs_view(res@) =~= before.push(f(alignment@[k as int])));
                assert(alignment@.take(k + 1).map_values(f) =~= alignment@.take(k as int).map_values(
                    f,
                ).push(f(alignment@[k as int])));
            }
            assert(alignment@.take(alignment@.len() as int) =~= alignment@);
            let ghost head = pairs_view(res@);
            let ghost o = ints(old_notes@);
            let ghost nn = ints(new_notes@);
            let count = if old_notes.len() < new_notes.len() {
                new_notes.len()
            } else {
                old_notes.len()
            };
            for k in 0..count
                invariant
                    o == ints(old_notes@),
                    nn == ints(new_notes@),
                    pairs_view(res@) == head + Seq::new(k as nat, |j: int| (get_at(o, j), get_at(nn, j))),
            {
                let x = if k < old_notes.len() {
                    Some(old_notes[k])
                } else {
                    None
                };
                let y = if k < new_notes.len() {
                    Some(new_notes[k])
                } else {
                    None
                };
                let ghost before = pairs_view(res@);
                assert(pair_view((x, y)) == (get_at(o, k as int), get_at(nn, k as int)));
                res.push((x, y));
                assert(pairs_view(res@) =~= before.push(pair_view((x, y))));
                assert(pairs_view(res@) =~= head + Seq::new(
                    (k + 1) as nat,
                    |j: int| (get_at(o, j), get_at(nn, j)),
                ));
            }
        },
    }
    res
}

// ---------------------------------------------------------------------------
// Screen rows and the lines they come from
/// Where a screen row comes from: the line it is anchored to, the new-side line it also
/// shows, and whether it starts a hunk.
#[derive(Clone, Copy, Debug, PartialEq, Eq, Structural)]
pub struct RowPlace {
    pub anchor: usize,
    pub other: Option<usize>,
    pub hunk: bool,
}

/// The line a row is anchored to (line 0 past the rows).
pub fn anchor_at(rows: &Vec<RowPlace>, row: usize) -> (res: usize)
    ensures
        res == if row < rows@.len() {
            rows@[row as int].anchor
        } else {
            0
        },
{
    if row < rows.len() {
        rows[row].anchor
    } else {
        0
    }
}

/// A row shows line `a`: anchored to it, or showing it on the new side.
pub open spec fn shows_line(r: RowPlace, a: usize) -> bool {
    r.anchor == a || r.other == Some(a)
}

/// The row for line `a`: the first row that shows it, else the first row anchored after it,
/// else the top.
pub open spec fn locate_spec(rows: Seq<RowPlace>, a: usize) -> int {
    if exists|i: int| 0 <= i < rows.len() && shows_line(#[trigger] rows[i], a) {
        choose|i: int|
            0 <= i < rows.len() && shows_line(#[trigger] rows[i], a) && forall|j: int|
                0 <= j < i ==> !shows_line(#[trigger] rows[j], a)
    } else if exists|i: int| 0 <= i < rows.len() && (#[trigger] rows[i]).anchor > a {
        choose|i: int|
            0 <= i < rows.len() && (#[trigger] rows[i]).anchor > a && forall|j: int|
                0 <= j < i ==> (#[trigger] rows[j]).anchor <= a
    } else {
        0
    }
}

/// Locating the line a row is anchored to finds that row, or an earlier row that shows the same
/// line: a layout change never moves the reader past the row they were on.
pub proof fn law_locate_finds_the_anchored_row(rows: Seq<RowPlace>, r: int)
    requires
        0 <= r < rows.len(),
    ensures
        0 <= locate_spec(rows, rows[r].anchor) <= r,
        shows_line(rows[locate_spec(rows, rows[r].anchor)], rows[r].anchor),
{
    let a = rows[r].anchor;
    assert(shows_line(rows[r], a));
    assert(exists|i: int| 0 <= i < rows.len() && shows_line(#[trigger] rows[i], a));
    let i = choose|i: int|
        0 <= i < rows.len() && shows_line(#[trigger] rows[i], a) && forall|j: int|
            0 <= j < i ==> !shows_line(#[trigger] rows[j], a);
    assert(exists|i: int|
        0 <= i < rows.len() && shows_line(#[trigger] rows[i], a) && forall|j: int|
            0 <= j < i ==> !shows_line(#[trigger] rows[j], a)) by {
        lemma_first_showing(rows, a, r);
    }
    assert(locate_spec(rows, a) == i);
    if i > r {
        assert(!shows_line(rows[r], a));
    }
}

/// Some row at or before `r` is the first to show `a`.
proof fn lemma_first_showing(rows: Seq<RowPlace>, a: usize, r: int)
    requires
        0 <= r < rows.len(),
        shows_line(rows[r], a),
    ensures
        exists|i: int|
            0 <= i <= r && shows_line(#[trigger] rows[i], a) && forall|j: int|
                0 <= j < i ==> !shows_line(#[trigger] rows[j], a),
    decreases r,
{
    if exists|j: int| 0 <= j < r && shows_line(#[trigger] rows[j], a) {
        let j = choose|j: int| 0 <= j < r && shows_line(#[trigger] rows[j], a);
        lemma_first_showing(rows, a, j);
    } else {
        assert(forall|j: int| 0 <= j < r ==> !shows_line(#[trigger] rows[j], a));
    }
}

/// A line that no row shows, with no row anchored after it, is located at the first row.
pub proof fn law_lines_past_the_rows_locate_to_the_top(rows: Seq<RowPlace>, a: usize)
    requires
        forall|i: int| 0 <= i < rows.len() ==> !shows_line(#[trigger] rows[i], a) && rows[i].anchor <= a,
    ensures
        locate_spec(rows, a) == 0,
{
}

/// The row for line `a` (see [`locate_spec`]), so that a layout change keeps a line in view.
pub fn locate(rows: &Vec<RowPlace>, a: usize) -> (res: usize)
    ensures
        res == locate_spec(rows@, a),
        rows@.len() > 0 ==> res < rows@.len(),
{
    let n = rows.len();
    for i in 0..n
        invariant
            n == rows@.len(),
            forall|j: int| 0 <= j < i ==> !shows_line(#[trigger] rows@[j], a),
    {
        if rows[i].anchor == a || rows[i].other == Some(a) {
            let ghost w = i as int;
            assert(shows_line(rows@[w], a));
            assert forall|k: int| 0 <= k < rows@.len() && shows_line(#[trigger] rows@[k], a) && (forall|j: int|
                0 <= j < k ==> !shows_line(#[trigger] rows@[j], a)) implies k == w by {
                if k < w {
                } else if k > w {
                    assert(!shows_line(rows@[w], a));
                }
            }
            return i;
        }
    }
    for i in 0..n
        invariant
            n == rows@.len(),
            forall|j: int| 0 <= j < n ==> !shows_line(#[trigger] rows@[j], a),
            forall|j: int| 0 <= j < i ==> (#[trigger] rows@[j]).anchor <= a,
    {
        if rows[i].anchor > a {
            let ghost w = i as int;
            assert(rows@[w].anchor > a);
            assert forall|k: int| 0 <= k < rows@.len() && (#[trigger] rows@[k]).anchor > a && (forall|j: int|
                0 <= j < k ==> (#[trigger] rows@[j]).anchor <= a) implies k == w by {
                if k > w {
                    assert(rows@[w].anchor <= a);
                }
            }
            return i;
        }
    }
    0
}


/// The rows of one line in the unified view: as many as it wraps to, anchored to it; the
/// first row of a hunk header starts a hunk.
pub open spec fn line_rows(p: Seq<DiffLine>, i: int, count: nat) -> Seq<RowPlace> {
    Seq::new(
        count,
        |k: int| RowPlace { anchor: i as usize, other: None, hunk: p[i].kind == LineKind::Hunk && k == 0 },
    )
}

/// The rows of the unified view from line `i` on: every line but the file headers, in the
/// order of the patch.
pub open spec fn unified_rows(p: Seq<DiffLine>, parts: Seq<usize>, i: int) -> Seq<RowPlace>
    decreases p.len() - i,
{
    if i < 0 || i >= p.len() {
        Seq::empty()
    } else if is_file_header_spec(p[i].kind, code_text(p[i])) {
        unified_rows(p, parts, i + 1)
    } else {
        line_rows(p, i, parts[i] as nat) + unified_rows(p, parts, i + 1)
    }
}

/// The rows of the unified view, given how many rows each line wraps to.
pub fn unified_places(patch: &Vec<DiffLine>, parts: &Vec<usize>) -> (res: Vec<RowPlace>)
    requires
        patch_wf(patch@),
        parts@.len() == patch@.len(),
    ensures
        res@ == unified_rows(patch@, parts@, 0),
{
    let n = patch.len();
    let ghost p = patch@;
    let mut res: Vec<RowPlace> = Vec::new();
    for i in 0..n
        invariant
            n == p.len() == parts@.len(),
            p == patch@,
            patch_wf(p),
            res@ + unified_rows(p, parts@, i as int) == unified_rows(p, parts@, 0),
    {
        assert(line_wf(p[i as int]));
        let code = line_code_text(&patch[i]);
        if !is_file_header(patch[i].kind, code.as_str()) {
            let ghost before = res@;
            let hunk = patch[i].kind == LineKind::Hunk;
            let count = parts[i];
            for k in 0..count
                invariant
                    count == parts@[i as int],
                    res@ == before + line_rows(p, i as int, k as nat),
                    hunk == (p[i as int].kind == LineKind::Hunk),
            {
                res.push(RowPlace { anchor: i, other: None, hunk: hunk && k == 0 });
                assert(res@ =~= before + line_rows(p, i as int, (k + 1) as nat));
            }
            assert(before + line_rows(p, i as int, parts@[i as int] as nat) + unified_rows(
                p,
                parts@,
                i + 1,
            ) =~= before + (line_rows(p, i as int, parts@[i as int] as nat) + unified_rows(
                p,
                parts@,
                i + 1,
            )));
        }
    }
    assert(res@ + Seq::<RowPlace>::empty() =~= res@);
    res
}

/// The unified view never shows a file header and keeps the order of the patch: every row
/// is anchored to a line from `i` on that is not a file header, and anchors never go back.
pub proof fn lemma_unified_rows(p: Seq<DiffLine>, parts: Seq<usize>, i: int)
    requires
        0 <= i <= p.len(),
        p.len() <= usize::MAX,
    ensures
        ({
            let rows = unified_rows(p, parts, i);
            &&& forall|k: int|
                0 <= k < rows.len() ==> i <= (#[trigger] rows[k]).anchor < p.len()
                    && !is_file_header_spec(p[rows[k].anchor as int].kind, code_text(p[rows[k].anchor as int]))
            &&& forall|a: int, b: int|
                0 <= a <= b < rows.len() ==> (#[trigger] rows[a]).anchor <= (#[trigger] rows[b]).anchor
        }),
    decreases p.len() - i,
{
    if i < p.len() {
        lemma_unified_rows(p, parts, i + 1);
        if !is_file_header_spec(p[i].kind, code_text(p[i])) {
            let head = line_rows(p, i, parts[i] as nat);
            let rest = unified_rows(p, parts, i + 1);
            let rows = unified_rows(p, parts, i);
            assert(rows == head + rest);
            assert forall|k: int| 0 <= k < rows.len() implies i <= (#[trigger] rows[k]).anchor < p.len()
                && !is_file_header_spec(p[rows[k].anchor as int].kind, code_text(p[rows[k].anchor as int])) by {
                if k >= head.len() {
                    assert(rows[k] == rest[k - head.len()]);
                }
            }
            assert forall|a: int, b: int| 0 <= a <= b < rows.len() implies (#[trigger] rows[a]).anchor
                <= (#[trigger] rows[b]).anchor by {
                if b >= head.len() {
                    assert(rows[b] == rest[b - head.len()]);
                    if a >= head.len() {
                        assert(rows[a] == rest[a - head.len()]);
                    }
                }
            }
        }
    }
}

/// The unified view keeps the patch's order and hides file headers: its rows are anchored to
/// lines that are not file headers, in the order of the patch.
pub proof fn law_unified_view_keeps_order_and_hides_headers(p: Seq<DiffLine>, parts: Seq<usize>)
    requires
        p.len() <= usize::MAX,
    ensures
        ({
            let rows = unified_rows(p, parts, 0);
            &&& forall|k: int|
                0 <= k < rows.len() ==> (#[trigger] rows[k]).anchor < p.len()
                    && !is_file_header_spec(p[rows[k].anchor as int].kind, code_text(p[rows[k].anchor as int]))
            &&& forall|a: int, b: int|
                0 <= a <= b < rows.len() ==> (#[trigger] rows[a]).anchor <= (#[trigger] rows[b]).anchor
        }),
{
    lemma_unified_rows(p, parts, 0);
}

/// The line a pair of the side-by-side view is anchored to: its old line, else its new line.
pub open spec fn pair_anchor(x: (Option<usize>, Option<usize>)) -> usize {
    match x.0 {
        Some(i) => i,
        None => match x.1 {
            Some(j) => j,
            None => 0,
        },
    }
}

/// How many rows a side of a pair takes.
pub open spec fn side_count(parts: Seq<usize>, o: Option<usize>) -> nat {
    match o {
        Some(i) => parts[i as int] as nat,
        None => 0,
    }
}

/// The rows of one pair of the side-by-side view: as many as its taller side, anchored to
/// the pair's old line (else its new line), also showing its new line; the first row starts a
/// hunk when the anchor is a hunk header.
pub open spec fn pair_rows(
    p: Seq<DiffLine>,
    x: (Option<usize>, Option<usize>),
    left_parts: Seq<usize>,
    right_parts: Seq<usize>,
) -> Seq<RowPlace> {
    let lc = side_count(left_parts, x.0);
    let rc = side_count(right_parts, x.1);
    Seq::new(
        if lc < rc {
            rc
        } else {
            lc
        },
        |k: int|
            RowPlace {
                anchor: pair_anchor(x),
                other: x.1,
                hunk: p[pair_anchor(x) as int].kind == LineKind::Hunk && k == 0,
            },
    )
}

/// The rows of the side-by-side view for the pairs from `i` on.
pub open spec fn split_rows(
    p: Seq<DiffLine>,
    pairs: Seq<(Option<usize>, Option<usize>)>,
    left_parts: Seq<usize>,
    right_parts: Seq<usize>,
    i: int,
) -> Seq<RowPlace>
    decreases pairs.len() - i,
{
    if i < 0 || i >= pairs.len() {
        Seq::empty()
    } else {
        pair_rows(p, pairs[i], left_parts, right_parts) + split_rows(
            p,
            pairs,
            left_parts,
            right_parts,
            i + 1,
        )
    }
}

/// The rows of the side-by-side view, given the pairs and how many rows each line wraps to
/// on the old and on the new side.
pub fn split_places(
    patch: &Vec<DiffLine>,
    pairs: &Vec<(Option<usize>, Option<usize>)>,
    left_parts: &Vec<usize>,
    right_parts: &Vec<usize>,
) -> (res: Vec<RowPlace>)
    requires
        left_parts@.len() == patch@.len(),
        right_parts@.len() == patch@.len(),
        forall|k: int|
            0 <= k < pairs@.len() ==> (match (#[trigger] pairs@[k]).0 {
                Some(i) => i < patch@.len(),
                None => true,
            }) && (match pairs@[k].1 {
                Some(i) => i < patch@.len(),
                None => true,
            }) && pair_anchor(pairs@[k]) < patch@.len(),
    ensures
        res@ == split_rows(patch@, pairs@, left_parts@, right_parts@, 0),
{
    let ghost p = patch@;
    let mut res: Vec<RowPlace> = Vec::new();
    for i in 0..pairs.len()
        invariant
            p == patch@,
            left_parts@.len() == p.len(),
            right_parts@.len() == p.len(),
            forall|k: int|
                0 <= k < pairs@.len() ==> (match (#[trigger] pairs@[k]).0 {
                    Some(i) => i < p.len(),
                    None => true,
                }) && (match pairs@[k].1 {
                    Some(i) => i < p.len(),
                    None => true,
                }) && pair_anchor(pairs@[k]) < p.len(),
            res@ + split_rows(p, pairs@, left_parts@, right_parts@, i as int) == split_rows(
                p,
                pairs@,
                left_parts@,
                right_parts@,
                0,
            ),
    {
        let (left, right) = pairs[i];
        let ghost x = pairs@[i as int];
        assert(x == (left, right));
        let lc = match left {
            Some(j) => left_parts[j],
            None => 0,
        };
        let rc = match right {
            Some(j) => right_parts[j],
            None => 0,
        };
        let count = if lc < rc {
            rc
        } else {
            lc
        };
        let anchor = match left {
            Some(j) => j,
            None => match right {
                Some(j) => j,
                None => 0,
            },
        };
        assert(anchor == pair_anchor(x));
        let hunk = patch[anchor].kind == LineKind::Hunk;
        let ghost before = res@;
        for k in 0..count
            invariant
                res@ == before + pair_rows(p, x, left_parts@, right_parts@).take(k as int),
                count == pair_rows(p, x, left_parts@, right_parts@).len(),
                anchor == pair_anchor(x),
                right == x.1,
                hunk == (p[anchor as int].kind == LineKind::Hunk),
        {
            res.push(RowPlace { anchor, other: right, hunk: hunk && k == 0 });
            assert(res@ =~= before + pair_rows(p, x, left_parts@, right_parts@).take(k + 1));
        }
        assert(pair_rows(p, x, left_parts@, right_parts@).take(count as int) =~= pair_rows(
            p,
            x,
            left_parts@,
            right_parts@,
        ));
        assert(before + pair_rows(p, x, left_parts@, right_parts@) + split_rows(
            p,
            pairs@,
            left_parts@,
            right_parts@,
            i + 1,
        ) =~= before + (pair_rows(p, x, left_parts@, right_parts@) + split_rows(
            p,
            pairs@,
            left_parts@,
            right_parts@,
            i + 1,
        )));
    }
    assert(res@ + Seq::<RowPlace>::empty() =~= res@);
    res
}

/// The code width of the unified view for a panel `width` columns wide (at least one).
pub fn unified_width(width: u16) -> (res: usize)
    ensures
        res == if width - 16 < 1 {
            1
        } else {
            width - 16
        },
{
    let w = width.saturating_sub(2 + UNIFIED_GUTTER) as usize;
    if w < 1 {
        1
    } else {
        w
    }
}

/// The code widths of the old and new sides of the side-by-side view for a panel `width`
/// columns wide (each at least one): the old side takes half, rounded down.
pub fn split_widths(width: u16) -> (res: (usize, usize))
    ensures
        res.0 == if width / 2 - 10 < 1 {
            1
        } else {
            width / 2 - 10
        },
        res.1 == if width - width / 2 - 10 < 1 {
            1
        } else {
            width - width / 2 - 10
        },
{
    let left = (width / 2).saturating_sub(2 + SPLIT_GUTTER) as usize;
    let right = (width - width / 2).saturating_sub(2 + SPLIT_GUTTER) as usize;
    (
        if left < 1 {
            1
        } else {
            left
        },
        if right < 1 {
            1
        } else {
            right
        },
    )
}

} // verus!
