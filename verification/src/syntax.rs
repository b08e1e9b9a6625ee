//! Syntax highlighting of source files: syntect parses and styles each line, comments and
//! string literals are told apart by their scopes, and brackets outside them are coloured by
//! their nesting depth.
use two_face::re_exports::syntect::highlighting::{
    FontStyle, HighlightState, Highlighter, RangedHighlightIterator, Theme,
};
use two_face::re_exports::syntect::parsing::{ClearAmount, ParseState, ScopeStack, ScopeStackOp, SyntaxSet};
use vstd::prelude::*;
use vstd::utf8::{decode_utf8, encode_utf8, is_char_boundary};

use crate::git::{clean, clean_char, clean_spec};
use crate::text::{
    chars_of, inclusive_lines_of, lines, lines_inclusive, lines_of, push_str, starts_with,
    starts_with_exec, str_eq, string_from_chars, trim_line_breaks, trim_line_end,
};
use crate::tokens::{concat, grapheme_split, graphemes, lemma_concat_add, lemma_encode_concat};

verus! {

/// An opening bracket.
pub open spec fn is_opening(c: char) -> bool {
    c == '(' || c == '[' || c == '{'
}

/// The opening bracket that a closing bracket closes.
pub open spec fn opening_of(c: char) -> Option<char> {
    if c == ')' {
        Some('(')
    } else if c == ']' {
        Some('[')
    } else if c == '}' {
        Some('{')
    } else {
        None
    }
}

/// What a character does to the open brackets, and the depth it is coloured with: an
/// opening bracket is coloured with the depth before it and opens one more; a closing
/// bracket that closes the innermost one is coloured with the depth after it; anything else,
/// an unmatched closing bracket included, is not coloured and changes nothing.
pub open spec fn visit_spec(open: Seq<char>, c: char) -> (Seq<char>, Option<int>) {
    if is_opening(c) {
        (open.push(c), Some(open.len() as int))
    } else if opening_of(c) is Some && open.len() > 0 && open.last() == opening_of(c).unwrap() {
        (open.drop_last(), Some(open.len() - 1))
    } else {
        (open, None)
    }
}

/// The brackets open so far in the code being highlighted (across lines).
pub struct Brackets {
    pub open: Vec<char>,
}

impl Brackets {
    /// No bracket open.
    pub fn new() -> (res: Brackets)
        ensures
            res.open@ == Seq::<char>::empty(),
    {
        Brackets { open: Vec::new() }
    }

    /// Takes the first character of a grapheme of code (see [`visit_spec`]) and returns the
    /// depth it is coloured with, if any.
    pub fn visit(&mut self, c: char) -> (res: Option<usize>)
        ensures
            final(self).open@ == visit_spec(old(self).open@, c).0,
            match res {
                Some(d) => visit_spec(old(self).open@, c).1 == Some(d as int),
                None => visit_spec(old(self).open@, c).1 is None,
            },
    {
        if c == '(' || c == '[' || c == '{' {
            let depth = self.open.len();
            self.open.push(c);
            return Some(depth);
        }
        let opening = if c == ')' {
            '('
        } else if c == ']' {
            '['
        } else if c == '}' {
            '{'
        } else {
            return None;
        };
        let n = self.open.len();
        if n == 0 || self.open[n - 1] != opening {
            return None;
        }
        self.open.pop();
        Some(n - 1)
    }
}

/// A closing bracket is coloured like the bracket it closes: opening a bracket and then
/// closing it gives both the same depth and leaves the open brackets as they were.
pub proof fn law_closing_bracket_matches_its_opening(open: Seq<char>, c: char, d: char)
    requires
        is_opening(c),
        opening_of(d) == Some(c),
    ensures
        ({
            let (after_open, first) = visit_spec(open, c);
            let (after_close, second) = visit_spec(after_open, d);
            &&& first is Some
            &&& second == first
            &&& after_close == open
        }),
{
    assert(open.push(c).drop_last() =~= open);
}


// ---------------------------------------------------------------------------
// The highlighter's types
#[verifier::external_type_specification]
#[verifier::external_body]
pub struct ExSyntaxSet(SyntaxSet);

#[verifier::external_type_specification]
#[verifier::external_body]
pub struct ExTheme(Theme);

#[verifier::external_type_specification]
#[verifier::external_body]
pub struct ExScopeStackOp(ScopeStackOp);

/// The colour of a bracket at nesting depth `depth`, cycling through six colours.
pub open spec fn bracket_rgb(depth: int) -> (u8, u8, u8) {
    let k = depth % 6;
    if k == 0 {
        (235, 203, 139)
    } else if k == 1 {
        (180, 142, 173)
    } else if k == 2 {
        (136, 192, 208)
    } else if k == 3 {
        (208, 135, 112)
    } else if k == 4 {
        (129, 161, 193)
    } else {
        (163, 190, 140)
    }
}

/// The colour of a bracket at nesting depth `depth` (see [`bracket_rgb`]).
pub fn bracket_color(depth: usize) -> (res: (u8, u8, u8))
    ensures
        res == bracket_rgb(depth as int),
{
    let k = depth % 6;
    if k == 0 {
        (235, 203, 139)
    } else if k == 1 {
        (180, 142, 173)
    } else if k == 2 {
        (136, 192, 208)
    } else if k == 3 {
        (208, 135, 112)
    } else if k == 4 {
        (129, 161, 193)
    } else {
        (163, 190, 140)
    }
}

// ---------------------------------------------------------------------------
// Scopes
/// Whether the scope named `name` lies under the scope named `prefix`: its dot-separated
/// atoms begin with those of `prefix`.
pub open spec fn atom_prefix(prefix: Seq<char>, name: Seq<char>) -> bool {
    name == prefix || (starts_with(name, prefix) && name.len() > prefix.len() && name[prefix.len()
        as int] == '.')
}

/// A scope of a comment or of a string literal.
pub open spec fn literal_scope(name: Seq<char>) -> bool {
    atom_prefix("comment"@, name) || atom_prefix("string"@, name)
}

/// Some scope on the stack, named bottom to top by `names`, is that of a comment or a string.
pub open spec fn in_literal_spec(names: Seq<Seq<char>>) -> bool {
    exists|i: int| 0 <= i < names.len() && #[trigger] literal_scope(names[i])
}

/// See [`atom_prefix`].
fn has_atom_prefix(prefix: &Vec<char>, name: &Vec<char>) -> (res: bool)
    ensures
        res == atom_prefix(prefix@, name@),
{
    if !starts_with_exec(name, prefix) {
        proof {
            if name@ == prefix@ {
                assert(name@.subrange(0, prefix@.len() as int) =~= name@);
            }
        }
        return false;
    }
    if name.len() == prefix.len() {
        assert(name@ =~= name@.subrange(0, prefix@.len() as int));
        return true;
    }
    name[prefix.len()] == '.'
}

/// Whether the scope stack, named bottom to top by `names`, is inside a comment or a string
/// literal (see [`in_literal_spec`]).
pub fn in_literal(names: &Vec<String>) -> (res: bool)
    ensures
        res == in_literal_spec(names@.map_values(|n: String| n@)),
{
    let ghost ns = names@.map_values(|n: String| n@);
    let comment = chars_of("comment");
    let string = chars_of("string");
    for i in 0..names.len()
        invariant
            ns == names@.map_values(|n: String| n@),
            comment@ == "comment"@,
            string@ == "string"@,
            forall|j: int| 0 <= j < i ==> !#[trigger] literal_scope(ns[j]),
    {
        let name = chars_of(names[i].as_str());
        if has_atom_prefix(&comment, &name) || has_atom_prefix(&string, &name) {
            assert(literal_scope(ns[i as int]));
            return true;
        }
    }
    false
}


// ---------------------------------------------------------------------------
// Styled runs of highlighted lines
/// A run of a highlighted line with the style the theme gives it.
pub struct StyledPiece {
    pub text: String,
    pub rgb: (u8, u8, u8),
    pub bold: bool,
    pub italic: bool,
}

/// A run of a highlighted line with its style, and whether it begins inside a comment or a
/// string literal.
pub struct Piece {
    pub text: String,
    pub rgb: (u8, u8, u8),
    pub bold: bool,
    pub italic: bool,
    pub in_literal: bool,
}

/// Text of a highlighted line with its colour and font style, ready to be drawn.
pub struct StyledText {
    pub text: String,
    pub rgb: (u8, u8, u8),
    pub bold: bool,
    pub italic: bool,
}

/// A run as plain values: text, colour, bold, italic, inside a literal.
pub type PieceV = (Seq<char>, (u8, u8, u8), bool, bool, bool);

/// Styled text as plain values: text, colour, bold, italic.
pub type StyledV = (Seq<char>, (u8, u8, u8), bool, bool);

/// A run as plain values.
pub open spec fn piece_view(p: Piece) -> PieceV {
    (p.text@, p.rgb, p.bold, p.italic, p.in_literal)
}

/// Styled text as plain values.
pub open spec fn styled_view(s: StyledText) -> StyledV {
    (s.text@, s.rgb, s.bold, s.italic)
}

/// Styled texts as plain values.
pub open spec fn styled_seq(v: Seq<StyledText>) -> Seq<StyledV> {
    v.map_values(|s: StyledText| styled_view(s))
}

/// The runs drawn for graphemes `gs` of a run that brackets are coloured in, from grapheme `k`
/// on, the text not yet drawn beginning at grapheme `start` and `open` the brackets open: each
/// bracket that [`visit_spec`] colours is drawn apart in the colour of its depth, the text
/// between brackets in the run's own colour; all cleaned for the terminal. Nothing is drawn
/// for a line that is not shown, but its brackets still open and close. Also gives the
/// brackets open after the run.
pub open spec fn bracket_runs(
    gs: Seq<Seq<char>>,
    k: int,
    start: int,
    open: Seq<char>,
    visible: bool,
    rgb: (u8, u8, u8),
    bold: bool,
    italic: bool,
) -> (Seq<char>, Seq<StyledV>)
    decreases gs.len() - k,
{
    if k < 0 || k >= gs.len() {
        (
            open,
            if visible && start < gs.len() {
                seq![(clean_spec(concat(gs.subrange(start, gs.len() as int))), rgb, bold, italic)]
            } else {
                Seq::empty()
            },
        )
    } else {
        let (next, depth) = visit_spec(open, gs[k][0]);
        if visible && depth is Some {
            let before: Seq<StyledV> = if start < k {
                seq![(clean_spec(concat(gs.subrange(start, k))), rgb, bold, italic)]
            } else {
                Seq::empty()
            };
            let bracket = (clean_spec(gs[k]), bracket_rgb(depth.unwrap()), bold, italic);
            let rest = bracket_runs(gs, k + 1, k + 1, next, visible, rgb, bold, italic);
            (rest.0, before.push(bracket) + rest.1)
        } else {
            bracket_runs(gs, k + 1, start, next, visible, rgb, bold, italic)
        }
    }
}

/// The runs drawn for one run of a line, without its line break, and the brackets open after
/// it: inside a comment or a string, or in plain text, the run is drawn whole in its own
/// style; otherwise its brackets are coloured (see [`bracket_runs`]).
pub open spec fn piece_runs(p: PieceV, open: Seq<char>, visible: bool, rainbow: bool) -> (
    Seq<char>,
    Seq<StyledV>,
) {
    let t = trim_line_breaks(p.0);
    if rainbow && !p.4 {
        bracket_runs(grapheme_split(t), 0, 0, open, visible, p.1, p.2, p.3)
    } else {
        (open, if visible && t.len() > 0 {
            seq![(clean_spec(t), p.1, p.2, p.3)]
        } else {
            Seq::empty()
        })
    }
}

/// The runs drawn for runs `k..` of a line, one after another (see [`piece_runs`]).
pub open spec fn line_runs(ps: Seq<PieceV>, k: int, open: Seq<char>, visible: bool, rainbow: bool) -> (
    Seq<char>,
    Seq<StyledV>,
)
    decreases ps.len() - k,
{
    if k < 0 || k >= ps.len() {
        (open, Seq::empty())
    } else {
        let (next, runs) = piece_runs(ps[k], open, visible, rainbow);
        let rest = line_runs(ps, k + 1, next, visible, rainbow);
        (rest.0, runs + rest.1)
    }
}

/// Line `n` (counted from 1) is asked for.
pub open spec fn wants(wanted: Seq<usize>, n: int) -> bool {
    exists|i: int| 0 <= i < wanted.len() && wanted[i] == n
}

/// The highlighted lines from line `k` (counted from 0) on, each of them asked for with its
/// number and its runs, brackets open across lines.
pub open spec fn highlighted_lines(
    ls: Seq<Seq<PieceV>>,
    k: int,
    open: Seq<char>,
    wanted: Seq<usize>,
    rainbow: bool,
) -> Seq<(int, Seq<StyledV>)>
    decreases ls.len() - k,
{
    if k < 0 || k >= ls.len() {
        Seq::empty()
    } else {
        let visible = wants(wanted, k + 1);
        let (next, runs) = line_runs(ls[k], 0, open, visible, rainbow);
        let rest = highlighted_lines(ls, k + 1, next, wanted, rainbow);
        if visible {
            seq![(k + 1, runs)] + rest
        } else {
            rest
        }
    }
}

/// The lines highlighted from line `k` on are those asked for among lines `k + 1..` of the
/// source, each once, in increasing order.
proof fn lemma_highlighted_numbers(ls: Seq<Seq<PieceV>>, k: int, open: Seq<char>, wanted: Seq<usize>, rainbow: bool)
    requires
        0 <= k <= ls.len(),
    ensures
        ({
            let r = highlighted_lines(ls, k, open, wanted, rainbow);
            &&& forall|i: int| 0 <= i < r.len() ==> k + 1 <= (#[trigger] r[i]).0 <= ls.len() && wants(wanted, r[i].0)
            &&& forall|i: int, j: int| 0 <= i < j < r.len() ==> r[i].0 < r[j].0
            &&& forall|n: int|
                k + 1 <= n <= ls.len() && wants(wanted, n) ==> exists|i: int| 0 <= i < r.len() && #[trigger] r[i].0 == n
        }),
    decreases ls.len() - k,
{
    let r = highlighted_lines(ls, k, open, wanted, rainbow);
    if k < ls.len() {
        let visible = wants(wanted, k + 1);
        let (next, runs) = line_runs(ls[k], 0, open, visible, rainbow);
        let rest = highlighted_lines(ls, k + 1, next, wanted, rainbow);
        lemma_highlighted_numbers(ls, k + 1, next, wanted, rainbow);
        if visible {
            assert(r == seq![(k + 1, runs)] + rest);
            assert forall|i: int| 0 <= i < r.len() implies k + 1 <= (#[trigger] r[i]).0 <= ls.len() && wants(
                wanted,
                r[i].0,
            ) by {
                if i > 0 {
                    assert(r[i] == rest[i - 1]);
                }
            }
            assert forall|i: int, j: int| 0 <= i < j < r.len() implies r[i].0 < r[j].0 by {
                assert(r[j] == rest[j - 1]);
                if i > 0 {
                    assert(r[i] == rest[i - 1]);
                }
            }
            assert forall|n: int| k + 1 <= n <= ls.len() && wants(wanted, n) implies exists|i: int|
                0 <= i < r.len() && #[trigger] r[i].0 == n by {
                if n == k + 1 {
                    assert(r[0].0 == n);
                } else {
                    let i = choose|i: int| 0 <= i < rest.len() && #[trigger] rest[i].0 == n;
                    assert(r[i + 1].0 == n);
                }
            }
        } else {
            assert(r == rest);
        }
    }
}

/// The highlighted lines are exactly the lines asked for that the source has, each once, in
/// increasing order.
pub proof fn law_highlighted_lines_are_those_asked_for(
    ls: Seq<Seq<PieceV>>,
    open: Seq<char>,
    wanted: Seq<usize>,
    rainbow: bool,
)
    ensures
        ({
            let r = highlighted_lines(ls, 0, open, wanted, rainbow);
            &&& forall|i: int| 0 <= i < r.len() ==> 1 <= (#[trigger] r[i]).0 <= ls.len() && wants(wanted, r[i].0)
            &&& forall|i: int, j: int| 0 <= i < j < r.len() ==> r[i].0 < r[j].0
            &&& forall|n: int|
                1 <= n <= ls.len() && wants(wanted, n) ==> exists|i: int| 0 <= i < r.len() && #[trigger] r[i].0 == n
        }),
{
    lemma_highlighted_numbers(ls, 0, open, wanted, rainbow);
}

/// The runs of lines as plain values.
pub open spec fn lines_view(ls: Seq<Vec<Piece>>) -> Seq<Seq<PieceV>> {
    ls.map_values(|v: Vec<Piece>| v@.map_values(|p: Piece| piece_view(p)))
}

/// Highlighted lines, each with its number, as plain values.
pub open spec fn result_view(r: Seq<(usize, Vec<StyledText>)>) -> Seq<(int, Seq<StyledV>)> {
    r.map_values(|e: (usize, Vec<StyledText>)| (e.0 as int, styled_seq(e.1@)))
}

/// The strings `gs[a..b]` one after another.
fn concat_range(gs: &Vec<String>, a: usize, b: usize) -> (res: String)
    requires
        a <= b <= gs@.len(),
    ensures
        res@ == concat(gs@.map_values(|s: String| s@).subrange(a as int, b as int)),
{
    let ghost g = gs@.map_values(|s: String| s@);
    let mut t = String::new();
    for j in a..b
        invariant
            a <= b <= gs@.len(),
            g == gs@.map_values(|s: String| s@),
            t@ == concat(g.subrange(a as int, j as int)),
    {
        assert(g.subrange(a as int, j + 1).drop_last() =~= g.subrange(a as int, j as int));
        push_str(&mut t, gs[j].as_str());
    }
    t
}

/// Cleaning text piece by piece cleans the whole.
proof fn lemma_clean_concat(a: Seq<char>, b: Seq<char>)
    ensures
        clean_spec(a + b) == clean_spec(a) + clean_spec(b),
    decreases b.len(),
{
    if b.len() == 0 {
        assert(a + b =~= a);
        assert(clean_spec(a) + clean_spec(b) =~= clean_spec(a));
    } else {
        lemma_clean_concat(a, b.drop_last());
        assert((a + b).drop_last() =~= a + b.drop_last());
        assert((a + b).last() == b.last());
        assert(clean_spec(a) + clean_spec(b.drop_last()) + clean_char(b.last()) =~= clean_spec(a) + (
        clean_spec(b.drop_last()) + clean_char(b.last())));
    }
}

/// The texts of a single string.
proof fn lemma_concat_one(g: Seq<char>)
    ensures
        concat(seq![g]) == g,
{
    let e = Seq::<Seq<char>>::empty();
    assert(seq![g].drop_last() =~= e);
    assert(concat(e) == Seq::<char>::empty());
    assert(seq![g].last() == g);
    assert(Seq::<char>::empty() + g =~= g);
}

/// The text of runs one after another.
proof fn lemma_runs_text_add(x: Seq<StyledV>, y: Seq<StyledV>)
    ensures
        runs_text(x + y) == runs_text(x) + runs_text(y),
{
    assert((x + y).map_values(|r: StyledV| r.0) =~= x.map_values(|r: StyledV| r.0) + y.map_values(
        |r: StyledV| r.0,
    ));
    lemma_concat_add(x.map_values(|r: StyledV| r.0), y.map_values(|r: StyledV| r.0));
}

/// One run's text.
proof fn lemma_runs_text_one(r: StyledV)
    ensures
        runs_text(seq![r]) == r.0,
{
    assert(seq![r].map_values(|x: StyledV| x.0) =~= seq![r.0]);
    lemma_concat_one(r.0);
}

/// The runs drawn for a shown run with coloured brackets spell its graphemes from `start` on,
/// cleaned: colouring brackets cuts the text but drops and adds nothing.
proof fn lemma_bracket_runs_spell(
    gs: Seq<Seq<char>>,
    k: int,
    start: int,
    open: Seq<char>,
    rgb: (u8, u8, u8),
    bold: bool,
    italic: bool,
)
    requires
        0 <= start <= k <= gs.len(),
    ensures
        runs_text(bracket_runs(gs, k, start, open, true, rgb, bold, italic).1) == clean_spec(
            concat(gs.subrange(start, gs.len() as int)),
        ),
    decreases gs.len() - k,
{
    let n = gs.len() as int;
    if k >= n {
        if start < n {
            lemma_runs_text_one((clean_spec(concat(gs.subrange(start, n))), rgb, bold, italic));
        } else {
            assert(gs.subrange(start, n) =~= Seq::<Seq<char>>::empty());
            assert(Seq::<StyledV>::empty().map_values(|r: StyledV| r.0) =~= Seq::<Seq<char>>::empty());
            assert(clean_spec(Seq::<char>::empty()) == Seq::<char>::empty());
        }
    } else {
        let (next, depth) = visit_spec(open, gs[k][0]);
        if depth is Some {
            lemma_bracket_runs_spell(gs, k + 1, k + 1, next, rgb, bold, italic);
            let before: Seq<StyledV> = if start < k {
                seq![(clean_spec(concat(gs.subrange(start, k))), rgb, bold, italic)]
            } else {
                Seq::empty()
            };
            let bracket = (clean_spec(gs[k]), bracket_rgb(depth.unwrap()), bold, italic);
            let rest = bracket_runs(gs, k + 1, k + 1, next, true, rgb, bold, italic);
            assert(before.push(bracket) =~= before + seq![bracket]);
            lemma_runs_text_add(before.push(bracket), rest.1);
            lemma_runs_text_add(before, seq![bracket]);
            lemma_runs_text_one(bracket);
            if start < k {
                lemma_runs_text_one(before[0]);
                assert(before =~= seq![before[0]]);
            } else {
                assert(gs.subrange(start, k) =~= Seq::<Seq<char>>::empty());
                assert(Seq::<StyledV>::empty().map_values(|r: StyledV| r.0) =~= Seq::<Seq<char>>::empty());
            }
            assert(gs.subrange(start, n) =~= gs.subrange(start, k) + seq![gs[k]] + gs.subrange(k + 1, n));
            lemma_concat_add(gs.subrange(start, k) + seq![gs[k]], gs.subrange(k + 1, n));
            lemma_concat_add(gs.subrange(start, k), seq![gs[k]]);
            lemma_concat_one(gs[k]);
            lemma_clean_concat(concat(gs.subrange(start, k)) + gs[k], concat(gs.subrange(k + 1, n)));
            lemma_clean_concat(concat(gs.subrange(start, k)), gs[k]);
        } else {
            lemma_bracket_runs_spell(gs, k + 1, start, next, rgb, bold, italic);
        }
    }
}

/// The text a line's runs spell: each run without its line break, cleaned.
pub open spec fn line_clean_text(ps: Seq<PieceV>) -> Seq<char> {
    concat(ps.map_values(|p: PieceV| clean_spec(trim_line_breaks(p.0))))
}

/// Draws a run whose brackets are coloured (see [`bracket_runs`]).
fn push_bracket_runs(
    text: &str,
    rgb: (u8, u8, u8),
    bold: bool,
    italic: bool,
    brackets: &mut Brackets,
    visible: bool,
    out: &mut Vec<StyledText>,
)
    ensures
        final(brackets).open@ == bracket_runs(
            grapheme_split(text@),
            0,
            0,
            old(brackets).open@,
            visible,
            rgb,
            bold,
            italic,
        ).0,
        styled_seq(final(out)@) == styled_seq(old(out)@) + bracket_runs(
            grapheme_split(text@),
            0,
            0,
            old(brackets).open@,
            visible,
            rgb,
            bold,
            italic,
        ).1,
        visible ==> runs_text(
            bracket_runs(grapheme_split(text@), 0, 0, old(brackets).open@, visible, rgb, bold, italic).1,
        ) == clean_spec(text@),
{
    let gs = graphemes(text);
    let ghost g = grapheme_split(text@);
    let ghost open0 = brackets.open@;
    let ghost out0 = styled_seq(out@);
    let mut start: usize = 0;
    let mut k: usize = 0;
    while k < gs.len()
        invariant
            g == gs@.map_values(|s: String| s@),
            forall|i: int| 0 <= i < gs@.len() ==> (#[trigger] gs@[i])@.len() > 0,
            start <= k <= gs@.len(),
            bracket_runs(g, k as int, start as int, brackets.open@, visible, rgb, bold, italic).0
                == bracket_runs(g, 0, 0, open0, visible, rgb, bold, italic).0,
            styled_seq(out@) + bracket_runs(
                g,
                k as int,
                start as int,
                brackets.open@,
                visible,
                rgb,
                bold,
                italic,
            ).1 == out0 + bracket_runs(g, 0, 0, open0, visible, rgb, bold, italic).1,
        decreases gs@.len() - k,
    {
        let cs = chars_of(gs[k].as_str());
        let ghost open = brackets.open@;
        let ghost here = bracket_runs(g, k as int, start as int, open, visible, rgb, bold, italic);
        let ghost before_out = styled_seq(out@);
        let depth = brackets.visit(cs[0]);
        proof {
            assert(g[k as int][0] == cs@[0]);
        }
        match depth {
            Some(d) => {
                if visible {
                    let ghost pre: Seq<StyledV> = if start < k {
                        seq![(clean_spec(concat(g.subrange(start as int, k as int))), rgb, bold, italic)]
                    } else {
                        Seq::empty()
                    };
                    if start < k {
                        let t = concat_range(&gs, start, k);
                        out.push(StyledText { text: clean(t.as_str()), rgb, bold, italic });
                    }
                    assert(styled_seq(out@) =~= before_out + pre);
                    out.push(
                        StyledText { text: clean(gs[k].as_str()), rgb: bracket_color(d), bold, italic },
                    );
                    let ghost bracket = (clean_spec(g[k as int]), bracket_rgb(d as int), bold, italic);
                    assert(styled_seq(out@) =~= before_out + pre.push(bracket));
                    let ghost rest = bracket_runs(
                        g,
                        k + 1,
                        k + 1,
                        brackets.open@,
                        visible,
                        rgb,
                        bold,
                        italic,
                    );
                    assert(here.1 == pre.push(bracket) + rest.1);
                    assert(styled_seq(out@) + rest.1 =~= before_out + here.1);
                    start = k + 1;
                }
            },
            None => {},
        }
        k += 1;
    }
    let ghost last = bracket_runs(g, k as int, start as int, brackets.open@, visible, rgb, bold, italic);
    let ghost before_out = styled_seq(out@);
    if visible && start < gs.len() {
        let t = concat_range(&gs, start, gs.len());
        out.push(StyledText { text: clean(t.as_str()), rgb, bold, italic });
        assert(styled_seq(out@) =~= before_out + last.1);
    } else {
        assert(before_out + last.1 =~= before_out);
    }
    proof {
        if visible {
            lemma_bracket_runs_spell(g, 0, 0, open0, rgb, bold, italic);
            assert(g.subrange(0, g.len() as int) =~= g);
        }
    }
}

/// Draws one run of a line (see [`piece_runs`]).
fn push_piece_runs(
    p: &Piece,
    brackets: &mut Brackets,
    visible: bool,
    rainbow: bool,
    out: &mut Vec<StyledText>,
)
    ensures
        final(brackets).open@ == piece_runs(piece_view(*p), old(brackets).open@, visible, rainbow).0,
        styled_seq(final(out)@) == styled_seq(old(out)@) + piece_runs(
            piece_view(*p),
            old(brackets).open@,
            visible,
            rainbow,
        ).1,
        visible ==> runs_text(piece_runs(piece_view(*p), old(brackets).open@, visible, rainbow).1)
            == clean_spec(trim_line_breaks(p.text@)),
{
    let t = trim_line_end(p.text.as_str());
    if rainbow && !p.in_literal {
        push_bracket_runs(t.as_str(), p.rgb, p.bold, p.italic, brackets, visible, out);
    } else {
        let ghost before = styled_seq(out@);
        if visible && !t.as_str().is_empty() {
            out.push(StyledText { text: clean(t.as_str()), rgb: p.rgb, bold: p.bold, italic: p.italic });
            assert(styled_seq(out@) =~= before.push((clean_spec(t@), p.rgb, p.bold, p.italic)));
        }
        assert(styled_seq(out@) =~= before + piece_runs(piece_view(*p), brackets.open@, visible, rainbow).1);
        proof {
            if visible {
                if t@.len() > 0 {
                    lemma_runs_text_one((clean_spec(t@), p.rgb, p.bold, p.italic));
                } else {
                    assert(t@ =~= Seq::<char>::empty());
                    assert(Seq::<StyledV>::empty().map_values(|r: StyledV| r.0) =~= Seq::<Seq<char>>::empty());
                }
            }
        }
    }
}

/// Draws the runs of a line one after another (see [`line_runs`]).
fn line_styled(pieces: &Vec<Piece>, brackets: &mut Brackets, visible: bool, rainbow: bool) -> (res: Vec<StyledText>)
    ensures
        final(brackets).open@ == line_runs(
            pieces@.map_values(|p: Piece| piece_view(p)),
            0,
            old(brackets).open@,
            visible,
            rainbow,
        ).0,
        styled_seq(res@) == line_runs(
            pieces@.map_values(|p: Piece| piece_view(p)),
            0,
            old(brackets).open@,
            visible,
            rainbow,
        ).1,
        visible ==> runs_text(
            line_runs(pieces@.map_values(|p: Piece| piece_view(p)), 0, old(brackets).open@, visible, rainbow).1,
        ) == line_clean_text(pieces@.map_values(|p: Piece| piece_view(p))),
{
    let ghost ps = pieces@.map_values(|p: Piece| piece_view(p));
    let ghost open0 = brackets.open@;
    let mut out: Vec<StyledText> = Vec::new();
    for k in 0..pieces.len()
        invariant
            ps == pieces@.map_values(|p: Piece| piece_view(p)),
            line_runs(ps, k as int, brackets.open@, visible, rainbow).0 == line_runs(
                ps,
                0,
                open0,
                visible,
                rainbow,
            ).0,
            styled_seq(out@) + line_runs(ps, k as int, brackets.open@, visible, rainbow).1
                == line_runs(ps, 0, open0, visible, rainbow).1,
            visible ==> runs_text(styled_seq(out@)) == line_clean_text(ps.take(k as int)),
    {
        let ghost open = brackets.open@;
        let ghost before = styled_seq(out@);
        push_piece_runs(&pieces[k], brackets, visible, rainbow, &mut out);
        let ghost now = piece_runs(ps[k as int], open, visible, rainbow);
        let ghost rest = line_runs(ps, k + 1, brackets.open@, visible, rainbow);
        assert(line_runs(ps, k as int, open, visible, rainbow).1 == now.1 + rest.1);
        assert(styled_seq(out@) + rest.1 =~= before + (now.1 + rest.1));
        proof {
            if visible {
                assert(styled_seq(out@) =~= before + now.1);
                lemma_runs_text_add(before, now.1);
                let f = |q: PieceV| clean_spec(trim_line_breaks(q.0));
                assert(ps.take(k + 1).map_values(f) =~= ps.take(k as int).map_values(f).push(f(ps[k as int])));
                assert(ps.take(k + 1).map_values(f).drop_last() =~= ps.take(k as int).map_values(f));
                assert(ps[k as int].0 == pieces@[k as int].text@);
            }
        }
    }
    assert(styled_seq(out@) + Seq::<StyledV>::empty() =~= styled_seq(out@));
    assert(ps.take(pieces@.len() as int) =~= ps);
    out
}

/// Whether `n` occurs in `wanted` (see [`wants`]).
fn wants_line(wanted: &Vec<usize>, n: usize) -> (res: bool)
    ensures
        res == wants(wanted@, n as int),
{
    for i in 0..wanted.len()
        invariant
            forall|j: int| 0 <= j < i ==> wanted@[j] != n,
    {
        if wanted[i] == n {
            return true;
        }
    }
    false
}

/// The highlighted lines asked for, in order, from the styled runs of the lines of a source
/// (see [`highlighted_lines`]): comments and strings keep the highlighter's style, brackets
/// elsewhere are coloured by nesting depth across lines unless the source is plain text, and
/// each line is drawn without its line break and cleaned for the terminal.
pub fn highlight_lines(lines: &Vec<Vec<Piece>>, wanted: &Vec<usize>, rainbow: bool) -> (res: Vec<
    (usize, Vec<StyledText>),
>)
    ensures
        result_view(res@) == highlighted_lines(lines_view(lines@), 0, Seq::empty(), wanted@, rainbow),
        forall|i: int|
            0 <= i < res@.len() ==> 1 <= (#[trigger] res@[i]).0 <= lines@.len() && runs_text(
                styled_seq(res@[i].1@),
            ) == line_clean_text(lines_view(lines@)[res@[i].0 - 1]),
{
    let ghost ls = lines_view(lines@);
    let mut brackets = Brackets::new();
    let mut res: Vec<(usize, Vec<StyledText>)> = Vec::new();
    for k in 0..lines.len()
        invariant
            ls == lines_view(lines@),
            result_view(res@) + highlighted_lines(ls, k as int, brackets.open@, wanted@, rainbow)
                == highlighted_lines(ls, 0, Seq::empty(), wanted@, rainbow),
            forall|i: int|
                0 <= i < res@.len() ==> 1 <= (#[trigger] res@[i]).0 <= k && runs_text(
                    styled_seq(res@[i].1@),
                ) == line_clean_text(ls[res@[i].0 - 1]),
    {
        let ghost open = brackets.open@;
        let ghost before = result_view(res@);
        let visible = wants_line(wanted, k + 1);
        let runs = line_styled(&lines[k], &mut brackets, visible, rainbow);
        assert(lines[k as int]@.map_values(|p: Piece| piece_view(p)) == ls[k as int]);
        let ghost rest = highlighted_lines(ls, k + 1, brackets.open@, wanted@, rainbow);
        if visible {
            let ghost prev = res@;
            res.push((k + 1, runs));
            assert(res@[res@.len() - 1].0 == k + 1);
            assert(forall|i: int| 0 <= i < prev.len() ==> res@[i] == prev[i]);
            assert(result_view(res@) =~= before.push(((k + 1) as int, styled_seq(runs@))));
            assert(result_view(res@) + rest =~= before + (seq![((k + 1) as int, styled_seq(runs@))] + rest));
        }
    }
    assert(result_view(res@) + Seq::<(int, Seq<StyledV>)>::empty() =~= result_view(res@));
    res
}


// ---------------------------------------------------------------------------
// Scope stacks
/// A change to a scope stack as the parser gives it: push a scope (by its name), pop some,
/// clear the top ones (or all) aside as a group, restore the group cleared last, or nothing.
pub enum ScopeChange {
    Push(String),
    Pop(usize),
    ClearTop(usize),
    ClearAll,
    Restore,
    Noop,
}

/// A scope change as plain values.
pub enum ScopeChangeSpec {
    Push(Seq<char>),
    Pop(usize),
    ClearTop(usize),
    ClearAll,
    Restore,
    Noop,
}

impl View for ScopeChange {
    type V = ScopeChangeSpec;

    open spec fn view(&self) -> ScopeChangeSpec {
        match self {
            ScopeChange::Push(s) => ScopeChangeSpec::Push(s@),
            ScopeChange::Pop(n) => ScopeChangeSpec::Pop(*n),
            ScopeChange::ClearTop(n) => ScopeChangeSpec::ClearTop(*n),
            ScopeChange::ClearAll => ScopeChangeSpec::ClearAll,
            ScopeChange::Restore => ScopeChangeSpec::Restore,
            ScopeChange::Noop => ScopeChangeSpec::Noop,
        }
    }
}

/// A scope stack: the scope names bottom to top, and the groups cleared aside, the last on top.
pub type StackSpec = (Seq<Seq<char>>, Seq<Seq<Seq<char>>>);

/// The empty scope stack.
pub open spec fn empty_stack() -> StackSpec {
    (Seq::empty(), Seq::empty())
}

/// What a change does to a scope stack, as `ScopeStack::apply` does it: popping or clearing
/// more scopes than there are takes them all; restoring with no group cleared fails.
pub open spec fn apply_change(st: StackSpec, c: ScopeChangeSpec) -> Option<StackSpec> {
    match c {
        ScopeChangeSpec::Push(s) => Some((st.0.push(s), st.1)),
        ScopeChangeSpec::Pop(n) => Some((st.0.take(st.0.len() - min_of(n as int, st.0.len() as int)), st.1)),
        ScopeChangeSpec::ClearTop(n) => {
            let keep = st.0.len() - min_of(n as int, st.0.len() as int);
            Some((st.0.take(keep), st.1.push(st.0.skip(keep))))
        },
        ScopeChangeSpec::ClearAll => Some((Seq::empty(), st.1.push(st.0))),
        ScopeChangeSpec::Restore => if st.1.len() > 0 {
            Some((st.0 + st.1.last(), st.1.drop_last()))
        } else {
            None
        },
        ScopeChangeSpec::Noop => Some(st),
    }
}

/// The stack after the changes `cs` (with their offsets) one after another; `None` when one of
/// them fails.
pub open spec fn apply_all(st: StackSpec, cs: Seq<(usize, ScopeChangeSpec)>) -> Option<StackSpec>
    decreases cs.len(),
{
    if cs.len() == 0 {
        Some(st)
    } else {
        match apply_all(st, cs.drop_last()) {
            Some(s) => apply_change(s, cs.last().1),
            None => None,
        }
    }
}

/// Once a change fails, applying more changes fails too.
proof fn lemma_apply_fails_on(st: StackSpec, cs: Seq<(usize, ScopeChangeSpec)>, a: int, b: int, c: int)
    requires
        0 <= a <= b <= c <= cs.len(),
        apply_all(st, cs.subrange(a, b)) is None,
    ensures
        apply_all(st, cs.subrange(a, c)) is None,
    decreases c - b,
{
    if c > b {
        lemma_apply_fails_on(st, cs, a, b, c - 1);
        assert(cs.subrange(a, c).drop_last() =~= cs.subrange(a, c - 1));
    }
}

/// Strings as text.
pub open spec fn strings_view(v: Seq<String>) -> Seq<Seq<char>> {
    v.map_values(|s: String| s@)
}

/// A scope stack the library keeps itself, by scope names.
struct ScopeModel {
    scopes: Vec<String>,
    cleared: Vec<Vec<String>>,
}

impl View for ScopeModel {
    type V = StackSpec;

    closed spec fn view(&self) -> StackSpec {
        (strings_view(self.scopes@), self.cleared@.map_values(|g: Vec<String>| strings_view(g@)))
    }
}

impl ScopeModel {
    fn new() -> (res: ScopeModel)
        ensures
            res@ == empty_stack(),
    {
        let res = ScopeModel { scopes: Vec::new(), cleared: Vec::new() };
        assert(res@.0 =~= Seq::<Seq<char>>::empty());
        assert(res@.1 =~= Seq::<Seq<Seq<char>>>::empty());
        res
    }

    /// Applies a change (see [`apply_change`]); `false`, with the stack unchanged, when it fails.
    fn apply(&mut self, c: &ScopeChange) -> (res: bool)
        ensures
            match apply_change(old(self)@, c@) {
                Some(s) => res && final(self)@ == s,
                None => !res && final(self)@ == old(self)@,
            },
    {
        let ghost before = self@;
        match c {
            ScopeChange::Push(name) => {
                self.scopes.push(name.clone());
                assert(self@.0 =~= before.0.push(name@));
                assert(self@.1 =~= before.1);
            },
            ScopeChange::Pop(n) => {
                let len = self.scopes.len();
                let count = if *n < len {
                    *n
                } else {
                    len
                };
                let rest = self.scopes.split_off(len - count);
                assert(self@.0 =~= before.0.take(before.0.len() - min_of(*n as int, before.0.len() as int)));
                assert(self@.1 =~= before.1);
            },
            ScopeChange::ClearTop(n) => {
                let len = self.scopes.len();
                let count = if *n < len {
                    *n
                } else {
                    len
                };
                let keep = len - count;
                let group = self.scopes.split_off(keep);
                self.cleared.push(group);
                assert(self@.0 =~= before.0.take(keep as int));
                assert(strings_view(group@) =~= before.0.skip(keep as int));
                assert(self@.1 =~= before.1.push(before.0.skip(keep as int)));
            },
            ScopeChange::ClearAll => {
                let group = self.scopes.split_off(0);
                self.cleared.push(group);
                assert(self@.0 =~= Seq::<Seq<char>>::empty());
                assert(strings_view(group@) =~= before.0);
                assert(self@.1 =~= before.1.push(before.0));
            },
            ScopeChange::Restore => {
                match self.cleared.pop() {
                    Some(group) => {
                        let mut group = group;
                        let ghost g = strings_view(group@);
                        assert(g == before.1.last());
                        self.scopes.append(&mut group);
                        assert(self@.0 =~= before.0 + g);
                        assert(self@.1 =~= before.1.drop_last());
                    },
                    None => {
                        return false;
                    },
                }
            },
            ScopeChange::Noop => {},
        }
        true
    }
}

// ---------------------------------------------------------------------------
// Runs of a line
/// The byte offsets of scope changes.
pub open spec fn positions(cs: Seq<(usize, ScopeChangeSpec)>) -> Seq<usize> {
    cs.map_values(|c: (usize, ScopeChangeSpec)| c.0)
}

/// Scope changes at offsets `pos` can be cut out of `line`: each lies on a character
/// boundary, and each after the first at or after the one before.
pub open spec fn positions_ok(pos: Seq<usize>, line: Seq<char>) -> bool {
    &&& forall|i: int| 0 <= i < pos.len() ==> is_char_boundary(encode_utf8(line), #[trigger] pos[i] as int)
    &&& forall|i: int| 0 < i < pos.len() ==> pos[i - 1] <= #[trigger] pos[i]
}

/// The stretches of a line between the boundaries `from`, `pos[k..]` and `len` that are not
/// empty, in order: the runs the highlighter gives for the line.
pub open spec fn segments(pos: Seq<usize>, k: int, from: int, len: int) -> Seq<(int, int)>
    decreases pos.len() - k,
{
    if k < 0 || k >= pos.len() {
        if from < len {
            seq![(from, len)]
        } else {
            Seq::empty()
        }
    } else {
        (if from < pos[k] {
            seq![(from, pos[k] as int)]
        } else {
            Seq::empty()
        }) + segments(pos, k + 1, pos[k] as int, len)
    }
}

/// The runs of a line of `len` bytes with scope changes at `pos`.
pub open spec fn run_bounds(pos: Seq<usize>, len: int) -> Seq<(int, int)> {
    segments(pos, 0, 0, len)
}

/// The stretches cover `from..len` end to end, none empty.
proof fn lemma_segments_tile(pos: Seq<usize>, k: int, from: int, len: int)
    requires
        0 <= k <= pos.len(),
        0 <= from <= len,
        forall|j: int| k <= j < pos.len() ==> from <= #[trigger] pos[j] <= len,
        forall|j: int| k < j < pos.len() ==> pos[j - 1] <= #[trigger] pos[j],
    ensures
        ({
            let s = segments(pos, k, from, len);
            &&& s.len() == 0 ==> from == len
            &&& s.len() > 0 ==> s[0].0 == from && s[s.len() - 1].1 == len
            &&& forall|q: int| 0 < q < s.len() ==> (#[trigger] s[q]).0 == s[q - 1].1
            &&& forall|q: int| 0 <= q < s.len() ==> (#[trigger] s[q]).0 < s[q].1
        }),
    decreases pos.len() - k,
{
    if k < pos.len() {
        let e = pos[k] as int;
        assert forall|j: int| k + 1 <= j < pos.len() implies e <= #[trigger] pos[j] <= len by {
            lemma_positions_rise(pos, k, j);
        }
        lemma_segments_tile(pos, k + 1, e, len);
        let t = segments(pos, k + 1, e, len);
        let s = segments(pos, k, from, len);
        if from < e {
            assert(s == seq![(from, e)] + t);
            assert forall|q: int| 0 < q < s.len() implies (#[trigger] s[q]).0 == s[q - 1].1 by {
                if q > 1 {
                    assert(s[q] == t[q - 1] && s[q - 1] == t[q - 2]);
                } else {
                    assert(s[1] == t[0]);
                }
            }
            assert forall|q: int| 0 <= q < s.len() implies (#[trigger] s[q]).0 < s[q].1 by {
                if q > 0 {
                    assert(s[q] == t[q - 1]);
                }
            }
            if t.len() > 0 {
                assert(s[s.len() - 1] == t[t.len() - 1]);
            }
        } else {
            assert(s =~= t);
        }
    }
}

/// Offsets that rise one after another rise over any distance.
proof fn lemma_positions_rise(pos: Seq<usize>, k: int, j: int)
    requires
        0 <= k <= j < pos.len(),
        forall|i: int| k < i < pos.len() ==> pos[i - 1] <= #[trigger] pos[i],
    ensures
        pos[k] <= pos[j],
    decreases j - k,
{
    if j > k {
        lemma_positions_rise(pos, k, j - 1);
        assert(pos[j - 1] <= pos[j]);
    }
}

/// Bounds as integers.
pub open spec fn bounds_view(v: Seq<(usize, usize)>) -> Seq<(int, int)> {
    v.map_values(|b: (usize, usize)| (b.0 as int, b.1 as int))
}

/// [`run_bounds`] of a line with scope changes `cs`.
fn run_bounds_exec(cs: &Vec<ParsedChange>, len: usize) -> (res: Vec<(usize, usize)>)
    requires
        forall|i: int| 0 <= i < cs@.len() ==> (#[trigger] cs@[i]).at <= len,
    ensures
        bounds_view(res@) == run_bounds(
            positions(changes_view(cs@)),
            len as int,
        ),
{
    let ghost pos = positions(changes_view(cs@));
    let mut res: Vec<(usize, usize)> = Vec::new();
    let mut from: usize = 0;
    for k in 0..cs.len()
        invariant
            pos == positions(changes_view(cs@)),
            forall|i: int| 0 <= i < cs@.len() ==> (#[trigger] cs@[i]).at <= len,
            from <= len,
            bounds_view(res@) + segments(
                pos,
                k as int,
                from as int,
                len as int,
            ) == run_bounds(pos, len as int),
    {
        let e = cs[k].at;
        assert(pos[k as int] == e);
        let ghost before = bounds_view(res@);
        let ghost rest = segments(pos, k + 1, e as int, len as int);
        if from < e {
            res.push((from, e));
            assert(bounds_view(res@) =~= before.push(
                (from as int, e as int),
            ));
            assert(before.push((from as int, e as int)) + rest =~= before + (seq![(from as int, e as int)]
                + rest));
        } else {
            assert(segments(pos, k as int, from as int, len as int) =~= rest);
        }
        from = e;
    }
    let ghost before = bounds_view(res@);
    if from < len {
        res.push((from, len));
        assert(bounds_view(res@) =~= before + seq![
            (from as int, len as int),
        ]);
    } else {
        assert(before + segments(pos, cs@.len() as int, from as int, len as int) =~= before);
    }
    res
}

/// How many of the changes, from change `j` on, apply before a run at byte `start`: those at or
/// before it.
pub open spec fn applied_upto(pos: Seq<usize>, start: int, j: int) -> int
    decreases pos.len() - j,
{
    if j < 0 || j >= pos.len() || pos[j] > start {
        j
    } else {
        applied_upto(pos, start, j + 1)
    }
}

/// The changes applied before a run lie between `j` and the last change.
proof fn lemma_applied_upto_bounds(pos: Seq<usize>, start: int, j: int)
    requires
        0 <= j <= pos.len(),
    ensures
        j <= applied_upto(pos, start, j) <= pos.len(),
        j < pos.len() && pos[j] <= start ==> j < applied_upto(pos, start, j),
    decreases pos.len() - j,
{
    if j < pos.len() && pos[j] <= start {
        lemma_applied_upto_bounds(pos, start, j + 1);
    }
}

/// Whether each run of a line (`bs[k..]`) begins inside a comment or a string: before each
/// run, the changes at or before its start (from change `next` on) apply to the stack `st`;
/// after the last run the line's other changes apply. Also the stack after the line; `None`
/// when a change fails.
pub open spec fn mark_runs(
    bs: Seq<(int, int)>,
    k: int,
    cs: Seq<(usize, ScopeChangeSpec)>,
    next: int,
    st: StackSpec,
) -> Option<(Seq<bool>, StackSpec)>
    decreases bs.len() - k,
{
    if k < 0 || k >= bs.len() {
        match apply_all(st, cs.subrange(next, cs.len() as int)) {
            Some(s) => Some((Seq::empty(), s)),
            None => None,
        }
    } else {
        let j = applied_upto(positions(cs), bs[k].0, next);
        match apply_all(st, cs.subrange(next, j)) {
            None => None,
            Some(s) => match mark_runs(bs, k + 1, cs, j, s) {
                None => None,
                Some(r) => Some((seq![in_literal_spec(s.0)] + r.0, r.1)),
            },
        }
    }
}

/// `fl` followed by the marks of `o`, if any.
pub open spec fn prefixed(fl: Seq<bool>, o: Option<(Seq<bool>, StackSpec)>) -> Option<(Seq<bool>, StackSpec)> {
    match o {
        Some(r) => Some((fl + r.0, r.1)),
        None => None,
    }
}

/// Why a file could not be highlighted.
pub enum HighlightError {
    /// The parser failed on a line.
    Parsing,
    /// A scope change could not be applied.
    Scope,
    /// The syntax set has no syntax of the chosen name (not even plain text).
    MissingSyntax,
    /// The parser gave scope changes that cannot be cut out of their line.
    Positions,
}

/// Lines `i..` of a source with the scope changes `chs` of its lines that parsed, the stack
/// being `st`: line by line, a line that did not parse fails, then one whose changes cannot
/// be cut out of it, then one where a change fails; otherwise each line's literal marks (see
/// [`mark_runs`]).
pub open spec fn scan_lines(
    chs: Seq<Seq<(usize, ScopeChangeSpec)>>,
    ls: Seq<Seq<char>>,
    i: int,
    st: StackSpec,
) -> Result<Seq<Seq<bool>>, HighlightError>
    decreases ls.len() - i,
{
    if i < 0 || i >= ls.len() {
        Ok(Seq::empty())
    } else if i >= chs.len() {
        Err(HighlightError::Parsing)
    } else if !positions_ok(positions(chs[i]), ls[i]) {
        Err(HighlightError::Positions)
    } else {
        match mark_runs(run_bounds(positions(chs[i]), encode_utf8(ls[i]).len() as int), 0, chs[i], 0, st) {
            None => Err(HighlightError::Scope),
            Some(r) => match scan_lines(chs, ls, i + 1, r.1) {
                Err(e) => Err(e),
                Ok(rest) => Ok(seq![r.0] + rest),
            },
        }
    }
}

/// A scope change of a parsed line: its byte offset, itself as plain values, and syntect's own.
struct ParsedChange {
    at: usize,
    change: ScopeChange,
    op: ScopeStackOp,
}

/// A parsed change as plain values.
spec fn change_view(c: ParsedChange) -> (usize, ScopeChangeSpec) {
    (c.at, c.change@)
}

/// Parsed changes as plain values.
spec fn changes_view(cs: Seq<ParsedChange>) -> Seq<(usize, ScopeChangeSpec)> {
    cs.map_values(|c: ParsedChange| change_view(c))
}

/// The parsed changes of lines as plain values.
spec fn lines_changes_view(chs: Seq<Vec<ParsedChange>>) -> Seq<Seq<(usize, ScopeChangeSpec)>> {
    chs.map_values(|v: Vec<ParsedChange>| changes_view(v@))
}

/// The literal marks of one line, applied to the library's stack (see [`mark_runs`]).
fn mark_line(bs: &Vec<(usize, usize)>, cs: &Vec<ParsedChange>, model: &mut ScopeModel) -> (res: Option<Vec<bool>>)
    ensures
        match mark_runs(
            bounds_view(bs@),
            0,
            changes_view(cs@),
            0,
            old(model)@,
        ) {
            Some(r) => res matches Some(fl) && fl@ == r.0 && final(model)@ == r.1,
            None => res is None,
        },
{
    let ghost bv = bounds_view(bs@);
    let ghost cv = changes_view(cs@);
    let ghost pos = positions(cv);
    let ghost st0 = model@;
    assert(cv.len() == cs@.len() && pos.len() == cs@.len());
    let mut flags: Vec<bool> = Vec::new();
    let mut next: usize = 0;
    assert(cv.subrange(0, 0) =~= Seq::<(usize, ScopeChangeSpec)>::empty());
    for k in 0..bs.len()
        invariant
            bv == bounds_view(bs@),
            cv == changes_view(cs@),
            cv.len() == cs@.len(),
            pos == positions(cv),
            pos.len() == cs@.len(),
            next <= cs@.len(),
            mark_runs(bv, 0, cv, 0, st0) == prefixed(flags@, mark_runs(bv, k as int, cv, next as int, model@)),
            st0 == old(model)@,
    {
        let start = bs[k].0;
        let ghost st = model@;
        let ghost next0 = next as int;
        assert(cv.subrange(next0, next0) =~= Seq::<(usize, ScopeChangeSpec)>::empty());
        while next < cs.len() && cs[next].at <= start
            invariant
                cv == changes_view(cs@),
                cv.len() == cs@.len(),
                pos == positions(cv),
                pos.len() == cs@.len(),
                0 <= next0 <= next <= cs@.len(),
                0 <= k < bv.len(),
                bv == bounds_view(bs@),
                mark_runs(bv, 0, cv, 0, st0) == prefixed(flags@, mark_runs(bv, k as int, cv, next0, st)),
                st0 == old(model)@,
                start == bv[k as int].0,
                applied_upto(pos, start as int, next as int) == applied_upto(pos, start as int, next0),
                apply_all(st, cv.subrange(next0, next as int)) == Some(model@),
            decreases cs@.len() - next,
        {
            let ghost m = model@;
            assert(cv.subrange(next0, next + 1).drop_last() =~= cv.subrange(next0, next as int));
            assert(cv[next as int] == change_view(cs@[next as int]));
            if !model.apply(&cs[next].change) {
                proof {
                    assert(pos[next as int] == cs@[next as int].at);
                    lemma_applied_upto_bounds(pos, start as int, next as int);
                    assert(apply_all(st, cv.subrange(next0, next + 1)) is None);
                    lemma_apply_fails_on(st, cv, next0, next + 1, applied_upto(pos, start as int, next0));
                    assert(mark_runs(bv, k as int, cv, next0, st) is None);
                }
                return None;
            }
            next += 1;
        }
        proof {
            assert(next >= cs@.len() || pos[next as int] > start);
        }
        let names = &model.scopes;
        let inside = in_literal(names);
        flags.push(inside);
        proof {
            let r = mark_runs(bv, k + 1, cv, next as int, model@);
            assert(mark_runs(bv, k as int, cv, next0, st) == match r {
                None => None,
                Some(r) => Some((seq![in_literal_spec(model@.0)] + r.0, r.1)),
            });
            match r {
                Some(rr) => {
                    assert(flags@ + rr.0 =~= flags@.drop_last() + (seq![in_literal_spec(model@.0)] + rr.0));
                },
                None => {},
            }
        }
    }
    let ghost st = model@;
    let ghost next0 = next as int;
    assert(cv.subrange(next0, next0) =~= Seq::<(usize, ScopeChangeSpec)>::empty());
    while next < cs.len()
        invariant
            cv == changes_view(cs@),
            cv.len() == cs@.len(),
            0 <= next0 <= next <= cs@.len(),
            bv == bounds_view(bs@),
            bv.len() == bs@.len(),
            mark_runs(bv, 0, cv, 0, st0) == prefixed(flags@, mark_runs(bv, bv.len() as int, cv, next0, st)),
            st0 == old(model)@,
            apply_all(st, cv.subrange(next0, next as int)) == Some(model@),
        decreases cs@.len() - next,
    {
        assert(cv.subrange(next0, next + 1).drop_last() =~= cv.subrange(next0, next as int));
        assert(cv[next as int] == change_view(cs@[next as int]));
        if !model.apply(&cs[next].change) {
            proof {
                assert(apply_all(st, cv.subrange(next0, next + 1)) is None);
                lemma_apply_fails_on(st, cv, next0, next + 1, cs@.len() as int);
                assert(mark_runs(bv, bv.len() as int, cv, next0, st) is None);
            }
            return None;
        }
        next += 1;
    }
    assert(flags@ + Seq::<bool>::empty() =~= flags@);
    Some(flags)
}

/// Whether the scope changes of a line can be cut out of it (see [`positions_ok`]).
fn positions_fit(cs: &Vec<ParsedChange>, line: &str) -> (res: bool)
    ensures
        res == positions_ok(positions(changes_view(cs@)), line@),
{
    let ghost pos = positions(changes_view(cs@));
    for i in 0..cs.len()
        invariant
            pos == positions(changes_view(cs@)),
            forall|j: int| 0 <= j < i ==> is_char_boundary(encode_utf8(line@), #[trigger] pos[j] as int),
            forall|j: int| 0 < j < i ==> pos[j - 1] <= #[trigger] pos[j],
    {
        assert(pos[i as int] == cs@[i as int].at);
        if !line.is_char_boundary(cs[i].at) {
            return false;
        }
        if i > 0 && cs[i - 1].at > cs[i].at {
            assert(pos[i - 1] == cs@[i - 1].at);
            return false;
        }
    }
    true
}

// ---------------------------------------------------------------------------
// The highlighter
/// What `std::path::Path::file_name` gives for a path, as text.
pub uninterp spec fn path_file_name(path: Seq<char>) -> Option<Seq<char>>;

/// What `std::path::Path::extension` gives for a path, as text.
pub uninterp spec fn path_extension(path: Seq<char>) -> Option<Seq<char>>;

/// The name of the syntax that two-face's syntax set gives for a file extension.
pub uninterp spec fn extension_syntax(extension: Seq<char>) -> Option<Seq<char>>;

/// The name of the syntax that two-face's syntax set gives for a file's first line.
pub uninterp spec fn first_line_syntax(line: Seq<char>) -> Option<Seq<char>>;

/// Two-face's syntax set has a syntax of this name.
pub uninterp spec fn syntax_known(name: Seq<char>) -> bool;

/// The scope changes that syntect's parser for the syntax `name` (of two-face's set) gives for
/// the last of `lines`, having parsed the lines before it; `None` when that line fails to
/// parse.
pub uninterp spec fn line_changes(name: Seq<char>, lines: Seq<Seq<char>>) -> Option<Seq<(usize, ScopeChangeSpec)>>;

/// The styles (foreground colour, bold, italic) that syntect's highlighter with two-face's
/// Nord theme gives the runs of `lines`, line after line from an empty scope stack, each line
/// with its scope `changes`: one list per line, one style per run.
pub uninterp spec fn run_styles(changes: Seq<Seq<(usize, ScopeChangeSpec)>>, lines: Seq<Seq<char>>) -> Seq<
    Seq<((u8, u8, u8), bool, bool)>,
>;

/// An optional string as text.
pub open spec fn opt_view(o: Option<String>) -> Option<Seq<char>> {
    match o {
        Some(s) => Some(s@),
        None => None,
    }
}

/// std: `Path::file_name` of `path`, as a string. Only named.
#[verifier::external_body]
fn file_name_of(path: &str) -> (res: Option<String>)
    ensures
        opt_view(res) == path_file_name(path@),
{
    std::path::Path::new(path).file_name().and_then(|name| name.to_str()).map(|name| name.to_owned())
}

/// std: `Path::extension` of `path`, as a string. Only named.
#[verifier::external_body]
fn extension_of(path: &str) -> (res: Option<String>)
    ensures
        opt_view(res) == path_extension(path@),
{
    std::path::Path::new(path).extension().and_then(|ext| ext.to_str()).map(|ext| ext.to_owned())
}

/// two-face: its syntax set with newlines (`syntax::extra_newlines`) and its Nord theme.
/// Nothing is stated of them.
#[verifier::external_body]
fn two_face_assets() -> (SyntaxSet, Theme) {
    (two_face::syntax::extra_newlines(), two_face::theme::extra()[two_face::theme::EmbeddedThemeName::Nord].clone())
}

/// syntect: `SyntaxSet::find_syntax_by_extension` on the engine's set, the name of the syntax
/// found. Only named: the engine always holds two-face's set (see [`SyntaxEngine::new`]).
#[verifier::external_body]
fn syntax_by_extension(engine: &SyntaxEngine, extension: &str) -> (res: Option<String>)
    ensures
        opt_view(res) == extension_syntax(extension@),
{
    engine.syntaxes.find_syntax_by_extension(extension).map(|syntax| syntax.name.clone())
}

/// syntect: `SyntaxSet::find_syntax_by_first_line` on the engine's set, the name of the syntax
/// found. Only named, as [`syntax_by_extension`] is.
#[verifier::external_body]
fn syntax_by_first_line(engine: &SyntaxEngine, line: &str) -> (res: Option<String>)
    ensures
        opt_view(res) == first_line_syntax(line@),
{
    engine.syntaxes.find_syntax_by_first_line(line).map(|syntax| syntax.name.clone())
}

/// The scope changes of lines `i..` as far as they parse: each line's changes, up to the first
/// line that does not parse.
pub open spec fn parsed_prefix(name: Seq<char>, ls: Seq<Seq<char>>, i: int) -> Seq<Seq<(usize, ScopeChangeSpec)>>
    decreases ls.len() - i,
{
    if i < 0 || i >= ls.len() {
        Seq::empty()
    } else {
        match line_changes(name, ls.take(i + 1)) {
            Some(cs) => seq![cs] + parsed_prefix(name, ls, i + 1),
            None => Seq::empty(),
        }
    }
}

/// syntect: a `ScopeStackOp` as a [`ScopeChange`], a pushed scope by its name
/// (`Scope::build_string`), one variant for one. Nothing is stated: it only converts.
#[verifier::external_body]
fn describe_op(op: &ScopeStackOp) -> ScopeChange {
    match op {
        ScopeStackOp::Push(scope) => ScopeChange::Push(scope.build_string()),
        ScopeStackOp::Pop(count) => ScopeChange::Pop(*count),
        ScopeStackOp::Clear(ClearAmount::TopN(count)) => ScopeChange::ClearTop(*count),
        ScopeStackOp::Clear(ClearAmount::All) => ScopeChange::ClearAll,
        ScopeStackOp::Restore => ScopeChange::Restore,
        ScopeStackOp::Noop => ScopeChange::Noop,
    }
}

/// syntect: `SyntaxSet::find_syntax_by_name` on the engine's set, `ParseState::new` for that
/// syntax, then `ParseState::parse_line` on each line in order, each change described by
/// [`describe_op`], up to the first line that fails to parse. The parser is made and used
/// here only, with the set it was made from, as `parse_line` requires. Only named: `None`
/// exactly when the set has no such syntax, else the changes of the lines as far as they parse.
#[verifier::external_body]
fn parse_lines(engine: &SyntaxEngine, name: &str, lines: &Vec<String>) -> (res: Option<Vec<Vec<ParsedChange>>>)
    ensures
        res is None <==> !syntax_known(name@),
        res matches Some(p) ==> lines_changes_view(p@) == parsed_prefix(name@, strings_view(lines@), 0),
        res matches Some(p) ==> forall|i: int|
            0 <= i < p@.len() ==> line_changes(name@, strings_view(lines@).take(i + 1)) == Some(
                changes_view((#[trigger] p@[i])@),
            ),
{
    let syntax = engine.syntaxes.find_syntax_by_name(name)?;
    let mut parser = ParseState::new(syntax);
    let mut parsed = Vec::new();
    for line in lines.iter() {
        let ops = match parser.parse_line(line, &engine.syntaxes) {
            Ok(ops) => ops,
            Err(_) => break,
        };
        parsed.push(ops.into_iter().map(|(at, op)| ParsedChange { at, change: describe_op(&op), op }).collect());
    }
    Some(parsed)
}

/// The runs of a line match its runs' bounds (see [`run_bounds`]): as many, each the bytes of
/// its stretch.
spec fn runs_fit(rs: Seq<StyledPiece>, cs: Seq<(usize, ScopeChangeSpec)>, line: Seq<char>) -> bool {
    let bs = run_bounds(positions(cs), encode_utf8(line).len() as int);
    &&& rs.len() == bs.len()
    &&& forall|k: int|
        0 <= k < rs.len() ==> encode_utf8((#[trigger] rs[k]).text@) == encode_utf8(line).subrange(bs[k].0, bs[k].1)
}

/// syntect: a `Highlighter` for the engine's theme, one `HighlightState` from an empty scope
/// stack, and `RangedHighlightIterator` over each line in order with its changes, each run
/// taken with its text, foreground colour and whether its font is bold or italic. Stated, from
/// the iterator's source: a line's runs are its non-empty stretches between the offsets of its
/// changes, in order (the iterator skips empty ones), as [`run_bounds`] gives them. That holds
/// because `requires` makes every change apply (the iterator stops early only where its own
/// scope stack, which receives the same changes from an empty stack, refuses one; [`mark_runs`]
/// applies them all in order) and every offset cut the line (else it panics). The runs'
/// styles are named: they are [`run_styles`] of the changes and the lines, the engine's theme
/// being always two-face's Nord theme.
#[verifier::external_body]
fn highlight_runs(engine: &SyntaxEngine, changes: &Vec<Vec<ParsedChange>>, lines: &Vec<String>) -> (res: Vec<Vec<StyledPiece>>)
    requires
        changes@.len() == lines@.len(),
        scan_lines(lines_changes_view(changes@), strings_view(lines@), 0, empty_stack()) is Ok,
    ensures
        res@.len() == lines@.len(),
        forall|i: int|
            0 <= i < res@.len() ==> runs_fit((#[trigger] res@[i])@, changes_view(changes@[i]@), lines@[i]@),
        styles_of(res@) == run_styles(lines_changes_view(changes@), strings_view(lines@)),
{
    let highlighter = Highlighter::new(&engine.theme);
    let mut state = HighlightState::new(&highlighter, ScopeStack::new());
    let mut runs = Vec::new();
    for (line, line_changes) in lines.iter().zip(changes) {
        let ops: Vec<_> = line_changes.iter().map(|c| (c.at, c.op.clone())).collect();
        runs.push(RangedHighlightIterator::new(&mut state, &ops, line, &highlighter).map(|(style, text, _)|
            StyledPiece {
                text: text.to_owned(),
                rgb: (style.foreground.r, style.foreground.g, style.foreground.b),
                bold: style.font_style.contains(FontStyle::BOLD),
                italic: style.font_style.contains(FontStyle::ITALIC),
            }).collect());
    }
    runs
}

/// The syntax chosen for a file: the one found by its whole file name taken as an extension,
/// else by its extension, else by its first line, else plain text.
pub open spec fn chosen_syntax(
    by_file_name: Option<Seq<char>>,
    by_extension: Option<Seq<char>>,
    by_first_line: Option<Seq<char>>,
) -> Seq<char> {
    match by_file_name {
        Some(n) => n,
        None => match by_extension {
            Some(n) => n,
            None => match by_first_line {
                Some(n) => n,
                None => "Plain Text"@,
            },
        },
    }
}

/// See [`chosen_syntax`].
pub fn choose_syntax(by_file_name: Option<String>, by_extension: Option<String>, by_first_line: Option<String>) -> (res: String)
    ensures
        res@ == chosen_syntax(opt_view(by_file_name), opt_view(by_extension), opt_view(by_first_line)),
{
    match by_file_name {
        Some(n) => n,
        None => match by_extension {
            Some(n) => n,
            None => match by_first_line {
                Some(n) => n,
                None => String::from_str("Plain Text"),
            },
        },
    }
}

/// The syntax found for a part of a path taken as an extension, if the path has that part.
pub open spec fn looked_up(part: Option<Seq<char>>) -> Option<Seq<char>> {
    match part {
        Some(p) => extension_syntax(p),
        None => None,
    }
}

/// The syntax of a file with this path and first line (see [`chosen_syntax`]).
pub open spec fn syntax_for(path: Seq<char>, first_line: Seq<char>) -> Seq<char> {
    chosen_syntax(looked_up(path_file_name(path)), looked_up(path_extension(path)), first_line_syntax(first_line))
}

/// The first line of a text, as `str::lines` gives it, or nothing.
pub open spec fn first_line_of(s: Seq<char>) -> Seq<char> {
    if lines_of(s).len() > 0 {
        lines_of(s)[0]
    } else {
        Seq::empty()
    }
}

/// The largest line number asked for, 0 when none is.
pub open spec fn last_wanted(w: Seq<usize>) -> int
    decreases w.len(),
{
    if w.len() == 0 {
        0
    } else {
        let m = last_wanted(w.drop_last());
        if w.last() > m {
            w.last() as int
        } else {
            m
        }
    }
}

/// The smaller of two integers.
pub open spec fn min_of(a: int, b: int) -> int {
    if a < b {
        a
    } else {
        b
    }
}

/// The lines of a source that are highlighted: up to the last one asked for.
pub open spec fn lines_to_highlight(source: Seq<char>, wanted: Seq<usize>) -> Seq<Seq<char>> {
    inclusive_lines_of(source).take(min_of(last_wanted(wanted), inclusive_lines_of(source).len() as int))
}

/// The runs of a highlighted line as plain values: its stretches between the offsets of its
/// changes `cs`, with the theme's `styles` and the literal `marks`.
pub open spec fn line_runs_of(
    line: Seq<char>,
    cs: Seq<(usize, ScopeChangeSpec)>,
    marks: Seq<bool>,
    styles: Seq<((u8, u8, u8), bool, bool)>,
) -> Seq<PieceV> {
    let bs = run_bounds(positions(cs), encode_utf8(line).len() as int);
    Seq::new(
        bs.len(),
        |k: int|
            (
                decode_utf8(encode_utf8(line).subrange(bs[k].0, bs[k].1)),
                styles[k].0,
                styles[k].1,
                styles[k].2,
                marks[k],
            ),
    )
}

/// The runs of the highlighted lines `ls` (see [`line_runs_of`]).
pub open spec fn runs_of(
    ls: Seq<Seq<char>>,
    chs: Seq<Seq<(usize, ScopeChangeSpec)>>,
    marks: Seq<Seq<bool>>,
    styles: Seq<Seq<((u8, u8, u8), bool, bool)>>,
) -> Seq<Seq<PieceV>> {
    Seq::new(ls.len(), |i: int| line_runs_of(ls[i], chs[i], marks[i], styles[i]))
}

/// The line has no line-break character before the ones it ends with.
pub open spec fn breaks_only_at_end(line: Seq<char>) -> bool {
    forall|j: int| 0 <= j < trim_line_breaks(line).len() ==> line[j] != '\n' && line[j] != '\r'
}

/// Syntax definitions and a colour theme: what source files are highlighted with.
pub struct SyntaxEngine {
    syntaxes: SyntaxSet,
    theme: Theme,
}

impl SyntaxEngine {
    /// An engine with two-face's syntaxes and its Nord theme, the only syntaxes and theme an
    /// engine is ever made with.
    pub fn new() -> SyntaxEngine {
        let (syntaxes, theme) = two_face_assets();
        SyntaxEngine { syntaxes, theme }
    }

    /// The name of the syntax for a file (see [`syntax_for`]).
    fn syntax_name(&self, path: &str, first_line: &str) -> (res: String)
        ensures
            res@ == syntax_for(path@, first_line@),
    {
        let by_file_name = match file_name_of(path) {
            Some(name) => syntax_by_extension(self, name.as_str()),
            None => None,
        };
        let by_extension = match extension_of(path) {
            Some(ext) => syntax_by_extension(self, ext.as_str()),
            None => None,
        };
        let by_first_line = syntax_by_first_line(self, first_line);
        choose_syntax(by_file_name, by_extension, by_first_line)
    }

    /// The name of the language a file is highlighted as, by its path alone.
    pub fn language(&self, path: &str) -> (res: String)
        ensures
            res@ == syntax_for(path@, ""@),
    {
        self.syntax_name(path, "")
    }

    /// The highlighted lines asked for of a source file, by number from 1. The syntax is
    /// chosen by the path and the first line ([`syntax_for`]); every line up to the last one
    /// asked for is parsed in order, and a scope stack kept across lines tells, for each run,
    /// whether it begins inside a comment or a string. It fails, at the first line where one
    /// does, when the syntax is missing, a line does not parse, its changes cannot be cut out
    /// of it, or a change cannot be applied ([`scan_lines`]); otherwise what is drawn is
    /// [`highlight_lines`] of the runs [`runs_of`] describes, whose texts make up each line.
    #[verifier::rlimit(60)]
    pub fn highlight(&self, path: &str, source: &str, wanted: &Vec<usize>) -> (res: Result<
        Vec<(usize, Vec<StyledText>)>,
        HighlightError,
    >)
        ensures
            wanted@.len() == 0 ==> (res matches Ok(v) && v@.len() == 0),
            wanted@.len() > 0 ==> ({
                let name = syntax_for(path@, first_line_of(source@));
                let ls = lines_to_highlight(source@, wanted@);
                let chs = parsed_prefix(name, ls, 0);
                &&& !syntax_known(name) ==> res == Err::<Vec<(usize, Vec<StyledText>)>, HighlightError>(
                    HighlightError::MissingSyntax,
                )
                &&& syntax_known(name) ==> match scan_lines(chs, ls, 0, empty_stack()) {
                    Err(e) => res == Err::<Vec<(usize, Vec<StyledText>)>, HighlightError>(e),
                    Ok(marks) => res matches Ok(v) && result_view(v@) == highlighted_lines(
                            runs_of(ls, chs, marks, run_styles(chs, ls)),
                            0,
                            Seq::empty(),
                            wanted@,
                            name != "Plain Text"@,
                        ),
                }
            }),
            res matches Ok(v) ==> forall|i: int|
                0 <= i < v@.len() ==> 1 <= (#[trigger] v@[i]).0 <= inclusive_lines_of(source@).len() && (
                breaks_only_at_end(inclusive_lines_of(source@)[v@[i].0 - 1]) ==> runs_text(
                    styled_seq(v@[i].1@),
                ) == clean_spec(trim_line_breaks(inclusive_lines_of(source@)[v@[i].0 - 1]))),
    {
        if wanted.len() == 0 {
            return Ok(Vec::new());
        }
        let mut last: usize = 0;
        for i in 0..wanted.len()
            invariant
                last == last_wanted(wanted@.take(i as int)),
        {
            assert(wanted@.take(i + 1).drop_last() =~= wanted@.take(i as int));
            if wanted[i] > last {
                last = wanted[i];
            }
        }
        assert(wanted@.take(wanted@.len() as int) =~= wanted@);
        let chars = chars_of(source);
        let split = lines(&chars);
        let first_line = if split.len() > 0 {
            string_from_chars(&split[0])
        } else {
            String::new()
        };
        assert(first_line@ == first_line_of(source@));
        let name = self.syntax_name(path, first_line.as_str());
        let rainbow = !str_eq(name.as_str(), "Plain Text");
        let source_lines = lines_inclusive(&chars);
        let ghost srcl = inclusive_lines_of(source@);
        let count = if last < source_lines.len() {
            last
        } else {
            source_lines.len()
        };
        let mut texts: Vec<String> = Vec::new();
        for i in 0..count
            invariant
                count <= source_lines@.len(),
                source_lines@.len() == srcl.len(),
                forall|j: int| 0 <= j < source_lines@.len() ==> #[trigger] source_lines@[j]@ == srcl[j],
                strings_view(texts@) == srcl.take(i as int),
        {
            let ghost old_texts = strings_view(texts@);
            texts.push(string_from_chars(&source_lines[i]));
            assert(strings_view(texts@) =~= old_texts.push(srcl[i as int]));
            assert(srcl.take(i + 1) =~= srcl.take(i as int).push(srcl[i as int]));
        }
        let ghost ls = strings_view(texts@);
        assert(ls == lines_to_highlight(source@, wanted@));
        let changes = match parse_lines(self, name.as_str(), &texts) {
            Some(changes) => changes,
            None => {
                return Err(HighlightError::MissingSyntax);
            },
        };
        let ghost chs = lines_changes_view(changes@);
        proof {
            lemma_parsed_prefix_len(name@, ls, 0);
        }
        let marks = match scan_source(&changes, &texts) {
            Ok(marks) => marks,
            Err(e) => {
                return Err(e);
            },
        };
        proof {
            lemma_assemble_ready(changes@, texts@, marks@);
            assert(chs.len() == changes@.len());
        }
        let runs = highlight_runs(self, &changes, &texts);
        let all = assemble_lines(&runs, &marks, &changes, &texts);
        let res = highlight_lines(&all, wanted, rainbow);
        proof {
            let styles = styles_of(runs@);
            assert(styles == run_styles(chs, ls));
            let marks_v = marks@.map_values(|m: Vec<bool>| m@);
            assert(lines_view(all@) == runs_of(ls, chs, marks_v, styles));
            assert(rainbow == (name@ != "Plain Text"@));
            assert(result_view(res@) == highlighted_lines(runs_of(ls, chs, marks_v, styles), 0, Seq::empty(), wanted@, name@ != "Plain Text"@));
            lemma_whole_lines(res@, lines_view(all@), ls, srcl);
        }
        Ok(res)
    }
}

/// What a successful scan gives the assembly of the lines: every line marked, with as many
/// marks as runs, and changes that cut it.
proof fn lemma_assemble_ready(changes: Seq<Vec<ParsedChange>>, lines: Seq<String>, marks: Seq<Vec<bool>>)
    requires
        scan_lines(lines_changes_view(changes), strings_view(lines), 0, empty_stack()) == Ok::<
            Seq<Seq<bool>>,
            HighlightError,
        >(marks.map_values(|x: Vec<bool>| x@)),
    ensures
        marks.len() == lines.len(),
        forall|i: int| 0 <= i < lines.len() ==> line_ready(changes[i], lines[i], #[trigger] marks[i]),
{
    let chs = lines_changes_view(changes);
    let ls = strings_view(lines);
    lemma_scan_facts(chs, ls, empty_stack());
    let m = marks.map_values(|x: Vec<bool>| x@);
    assert forall|i: int| 0 <= i < lines.len() implies line_ready(changes[i], lines[i], #[trigger] marks[i]) by {
        lemma_scan_line(chs, ls, 0, empty_stack(), i);
        assert(0 + i == i);
        assert(chs[i] == changes_view(changes[i]@));
        assert(m[i] == marks[i]@);
        assert(ls[i] == lines[i]@);
    }
}

/// Each highlighted line is drawn from its runs, which make up the line: when the line's line
/// breaks are all at its end, it is drawn whole, without them, cleaned.
proof fn lemma_whole_lines(
    res: Seq<(usize, Vec<StyledText>)>,
    ls: Seq<Seq<PieceV>>,
    lines: Seq<Seq<char>>,
    srcl: Seq<Seq<char>>,
)
    requires
        ls.len() == lines.len(),
        lines == srcl.take(lines.len() as int),
        lines.len() <= srcl.len(),
        forall|j: int| 0 <= j < ls.len() ==> concat(run_texts(#[trigger] ls[j])) == lines[j],
        forall|i: int|
            0 <= i < res.len() ==> 1 <= (#[trigger] res[i]).0 <= ls.len() && runs_text(styled_seq(res[i].1@))
                == line_clean_text(ls[res[i].0 - 1]),
    ensures
        forall|i: int|
            0 <= i < res.len() ==> 1 <= (#[trigger] res[i]).0 <= srcl.len() && (breaks_only_at_end(
                srcl[res[i].0 - 1],
            ) ==> runs_text(styled_seq(res[i].1@)) == clean_spec(trim_line_breaks(srcl[res[i].0 - 1]))),
{
    assert forall|i: int| 0 <= i < res.len() implies 1 <= (#[trigger] res[i]).0 <= srcl.len() && (
    breaks_only_at_end(srcl[res[i].0 - 1]) ==> runs_text(styled_seq(res[i].1@)) == clean_spec(
        trim_line_breaks(srcl[res[i].0 - 1]),
    )) by {
        let n = res[i].0 - 1;
        assert(lines[n] == srcl[n]);
        if breaks_only_at_end(srcl[n]) {
            lemma_whole_line(ls[n], srcl[n]);
        }
    }
}

/// The parsed prefix holds no more lines than there are.
proof fn lemma_parsed_prefix_len(name: Seq<char>, ls: Seq<Seq<char>>, i: int)
    requires
        0 <= i <= ls.len(),
    ensures
        parsed_prefix(name, ls, i).len() <= ls.len() - i,
    decreases ls.len() - i,
{
    if i < ls.len() {
        lemma_parsed_prefix_len(name, ls, i + 1);
    }
}

/// The literal marks of every line (see [`scan_lines`]), with a stack the library keeps.
fn scan_source(changes: &Vec<Vec<ParsedChange>>, lines: &Vec<String>) -> (res: Result<Vec<Vec<bool>>, HighlightError>)
    ensures
        match scan_lines(lines_changes_view(changes@), strings_view(lines@), 0, empty_stack()) {
            Ok(m) => res matches Ok(v) && v@.map_values(|x: Vec<bool>| x@) == m && changes@.len() >= lines@.len(),
            Err(e) => res == Err::<Vec<Vec<bool>>, HighlightError>(e),
        },
{
    let ghost chs = lines_changes_view(changes@);
    let ghost ls = strings_view(lines@);
    let mut model = ScopeModel::new();
    let mut marks: Vec<Vec<bool>> = Vec::new();
    for i in 0..lines.len()
        invariant
            chs == lines_changes_view(changes@),
            ls == strings_view(lines@),
            marks@.len() == i,
            i <= changes@.len(),
            match scan_lines(chs, ls, i as int, model@) {
                Ok(m) => scan_lines(chs, ls, 0, empty_stack()) == Ok::<Seq<Seq<bool>>, HighlightError>(
                    marks@.map_values(|x: Vec<bool>| x@) + m,
                ),
                Err(e) => scan_lines(chs, ls, 0, empty_stack()) == Err::<Seq<Seq<bool>>, HighlightError>(e),
            },
    {
        if i >= changes.len() {
            return Err(HighlightError::Parsing);
        }
        let cs = &changes[i];
        assert(chs[i as int] == changes_view(cs@));
        if !positions_fit(cs, lines[i].as_str()) {
            return Err(HighlightError::Positions);
        }
        proof {
            vstd::utf8::encode_utf8_valid_utf8(ls[i as int]);
            assert forall|j: int| 0 <= j < cs@.len() implies (#[trigger] cs@[j]).at <= encode_utf8(ls[i as int]).len()
            by {
                assert(positions(changes_view(cs@))[j] == cs@[j].at);
                assert(is_char_boundary(encode_utf8(ls[i as int]), cs@[j].at as int));
            }
        }
        let len = lines[i].as_str().as_bytes().len();
        assert(len == encode_utf8(ls[i as int]).len());
        let bs = run_bounds_exec(cs, len);
        let ghost st = model@;
        match mark_line(&bs, cs, &mut model) {
            None => {
                return Err(HighlightError::Scope);
            },
            Some(fl) => {
                let ghost before = marks@.map_values(|x: Vec<bool>| x@);
                marks.push(fl);
                assert(marks@.map_values(|x: Vec<bool>| x@) =~= before.push(fl@));
                proof {
                    match scan_lines(chs, ls, i + 1, model@) {
                        Ok(m) => {
                            assert(before + (seq![fl@] + m) =~= before.push(fl@) + m);
                        },
                        Err(e) => {},
                    }
                }
            },
        }
    }
    assert(marks@.map_values(|x: Vec<bool>| x@) + Seq::<Seq<bool>>::empty() =~= marks@.map_values(
        |x: Vec<bool>| x@,
    ));
    Ok(marks)
}

/// The marks of a line's runs number as its runs from `k` on.
proof fn lemma_mark_len(bs: Seq<(int, int)>, k: int, cs: Seq<(usize, ScopeChangeSpec)>, next: int, st: StackSpec)
    requires
        0 <= k <= bs.len(),
        mark_runs(bs, k, cs, next, st) is Some,
    ensures
        mark_runs(bs, k, cs, next, st).unwrap().0.len() == bs.len() - k,
    decreases bs.len() - k,
{
    if k < bs.len() {
        let j = applied_upto(positions(cs), bs[k].0, next);
        let s = apply_all(st, cs.subrange(next, j)).unwrap();
        lemma_mark_len(bs, k + 1, cs, j, s);
    }
}

/// A scan that succeeds marks every line from `i` on.
proof fn lemma_scan_len(chs: Seq<Seq<(usize, ScopeChangeSpec)>>, ls: Seq<Seq<char>>, i: int, st: StackSpec)
    requires
        0 <= i <= ls.len(),
        scan_lines(chs, ls, i, st) is Ok,
    ensures
        scan_lines(chs, ls, i, st)->Ok_0.len() == ls.len() - i,
    decreases ls.len() - i,
{
    if i < ls.len() {
        let bs = run_bounds(positions(chs[i]), encode_utf8(ls[i]).len() as int);
        let r = mark_runs(bs, 0, chs[i], 0, st).unwrap();
        lemma_scan_len(chs, ls, i + 1, r.1);
    }
}

/// In a scan that succeeds, line `i + q` parsed, its changes cut it, and it has a mark for
/// each of its runs.
proof fn lemma_scan_line(chs: Seq<Seq<(usize, ScopeChangeSpec)>>, ls: Seq<Seq<char>>, i: int, st: StackSpec, q: int)
    requires
        0 <= i,
        0 <= q,
        i + q < ls.len(),
        scan_lines(chs, ls, i, st) is Ok,
    ensures
        i + q < chs.len(),
        positions_ok(positions(chs[i + q]), ls[i + q]),
        scan_lines(chs, ls, i, st)->Ok_0[q].len() == run_bounds(
            positions(chs[i + q]),
            encode_utf8(ls[i + q]).len() as int,
        ).len(),
    decreases q,
{
    let bs = run_bounds(positions(chs[i]), encode_utf8(ls[i]).len() as int);
    let r = mark_runs(bs, 0, chs[i], 0, st).unwrap();
    lemma_mark_len(bs, 0, chs[i], 0, st);
    let m = scan_lines(chs, ls, i, st)->Ok_0;
    let rest = scan_lines(chs, ls, i + 1, r.1)->Ok_0;
    assert(m == seq![r.0] + rest);
    lemma_scan_len(chs, ls, i + 1, r.1);
    if q > 0 {
        lemma_scan_line(chs, ls, i + 1, r.1, q - 1);
        assert(i + q == (i + 1) + (q - 1));
        assert(m[q] == rest[q - 1]);
    }
}

/// A scan from the first line that succeeds marks every line, and every line parsed.
proof fn lemma_scan_facts(chs: Seq<Seq<(usize, ScopeChangeSpec)>>, ls: Seq<Seq<char>>, st: StackSpec)
    requires
        scan_lines(chs, ls, 0, st) is Ok,
    ensures
        scan_lines(chs, ls, 0, st)->Ok_0.len() == ls.len(),
        ls.len() > 0 ==> chs.len() >= ls.len(),
{
    lemma_scan_len(chs, ls, 0, st);
    if ls.len() > 0 {
        lemma_scan_line(chs, ls, 0, st, ls.len() - 1);
    }
}

/// The theme's styles of runs, as plain values.
pub open spec fn styles_of(runs: Seq<Vec<StyledPiece>>) -> Seq<Seq<((u8, u8, u8), bool, bool)>> {
    runs.map_values(|v: Vec<StyledPiece>| v@.map_values(|p: StyledPiece| (p.rgb, p.bold, p.italic)))
}

/// The texts of runs, as plain values.
pub open spec fn run_texts(ps: Seq<PieceV>) -> Seq<Seq<char>> {
    ps.map_values(|p: PieceV| p.0)
}

/// A line's changes cut it, and it has as many literal marks as runs.
spec fn line_ready(c: Vec<ParsedChange>, line: String, m: Vec<bool>) -> bool {
    &&& positions_ok(positions(changes_view(c@)), line@)
    &&& m@.len() == run_bounds(positions(changes_view(c@)), encode_utf8(line@).len() as int).len()
}

/// The theme's styles of a line's runs, as plain values.
pub open spec fn line_styles(rs: Seq<StyledPiece>) -> Seq<((u8, u8, u8), bool, bool)> {
    rs.map_values(|p: StyledPiece| (p.rgb, p.bold, p.italic))
}

/// One line's runs with their literal marks (see [`line_runs_of`]); they make up the line.
#[verifier::rlimit(80)]
fn assemble_line(line_runs: &Vec<StyledPiece>, line_marks: &Vec<bool>, cs: &Vec<ParsedChange>, line: &String) -> (res: Vec<
    Piece,
>)
    requires
        runs_fit(line_runs@, changes_view(cs@), line@),
        line_ready(*cs, *line, *line_marks),
    ensures
        res@.map_values(|p: Piece| piece_view(p)) == line_runs_of(
            line@,
            changes_view(cs@),
            line_marks@,
            line_styles(line_runs@),
        ),
        concat(run_texts(res@.map_values(|p: Piece| piece_view(p)))) == line@,
{
    let ghost bytes = encode_utf8(line@);
    let ghost pos = positions(changes_view(cs@));
    let ghost bs = run_bounds(pos, bytes.len() as int);
    let ghost target = line_runs_of(line@, changes_view(cs@), line_marks@, line_styles(line_runs@));
    proof {
        vstd::utf8::encode_utf8_valid_utf8(line@);
        assert forall|j: int| 0 <= j < pos.len() implies 0 <= #[trigger] pos[j] <= bytes.len() by {
            assert(is_char_boundary(bytes, pos[j] as int));
        }
        lemma_segments_tile(pos, 0, 0, bytes.len() as int);
    }
    let mut pieces: Vec<Piece> = Vec::new();
    let ghost mut end: int = 0;
    for k in 0..line_runs.len()
        invariant
            line_runs@.len() == bs.len(),
            line_marks@.len() == bs.len(),
            runs_fit(line_runs@, changes_view(cs@), line@),
            bs == run_bounds(pos, bytes.len() as int),
            pos == positions(changes_view(cs@)),
            bytes == encode_utf8(line@),
            target == line_runs_of(line@, changes_view(cs@), line_marks@, line_styles(line_runs@)),
            bs.len() == 0 ==> bytes.len() == 0,
            bs.len() > 0 ==> bs[0].0 == 0 && bs[bs.len() - 1].1 == bytes.len(),
            forall|q: int| 0 < q < bs.len() ==> (#[trigger] bs[q]).0 == bs[q - 1].1,
            forall|q: int| 0 <= q < bs.len() ==> (#[trigger] bs[q]).0 < bs[q].1,
            k == 0 ==> end == 0,
            k > 0 ==> end == bs[k - 1].1,
            0 <= end <= bytes.len(),
            pieces@.map_values(|p: Piece| piece_view(p)) == target.take(k as int),
            encode_utf8(concat(run_texts(target.take(k as int)))) == bytes.subrange(0, end),
    {
        let run = &line_runs[k];
        let text = run.text.clone();
        let ghost before = pieces@.map_values(|p: Piece| piece_view(p));
        proof {
            let rk = line_runs@[k as int];
            assert(encode_utf8(rk.text@) == bytes.subrange(bs[k as int].0, bs[k as int].1));
            vstd::utf8::encode_utf8_decode_utf8(text@);
            lemma_bounds_within(bs, k as int, bytes.len() as int);
            if k > 0 {
                assert(bs[k as int].0 == bs[k - 1].1);
            }
        }
        pieces.push(Piece { text, rgb: run.rgb, bold: run.bold, italic: run.italic, in_literal: line_marks[k] });
        proof {
            let t = text@;
            assert(target[k as int] == piece_view(pieces@[k as int]));
            assert(pieces@.map_values(|p: Piece| piece_view(p)) =~= before.push(target[k as int]));
            assert(target.take(k + 1) =~= target.take(k as int).push(target[k as int]));
            assert(run_texts(target.take(k + 1)) =~= run_texts(target.take(k as int)).push(t));
            assert(run_texts(target.take(k + 1)).drop_last() =~= run_texts(target.take(k as int)));
            lemma_encode_concat(concat(run_texts(target.take(k as int))), t);
            assert(bytes.subrange(0, end) + bytes.subrange(end, bs[k as int].1) =~= bytes.subrange(0, bs[k as int].1));
            end = bs[k as int].1;
        }
    }
    proof {
        assert(target.take(bs.len() as int) =~= target);
        assert(end == bytes.len());
        assert(bytes.subrange(0, end) =~= bytes);
        vstd::utf8::encode_utf8_decode_utf8(concat(run_texts(target)));
        vstd::utf8::encode_utf8_decode_utf8(line@);
    }
    pieces
}

/// Each line's runs with their literal marks (see [`runs_of`]); the runs of a line make up
/// the line.
fn assemble_lines(
    runs: &Vec<Vec<StyledPiece>>,
    marks: &Vec<Vec<bool>>,
    changes: &Vec<Vec<ParsedChange>>,
    lines: &Vec<String>,
) -> (res: Vec<Vec<Piece>>)
    requires
        runs@.len() == lines@.len(),
        marks@.len() == lines@.len(),
        changes@.len() == lines@.len(),
        forall|i: int| 0 <= i < lines@.len() ==> runs_fit((#[trigger] runs@[i])@, changes_view(changes@[i]@), lines@[i]@),
        forall|i: int| 0 <= i < lines@.len() ==> line_ready(changes@[i], lines@[i], #[trigger] marks@[i]),
    ensures
        lines_view(res@) == runs_of(
            strings_view(lines@),
            lines_changes_view(changes@),
            marks@.map_values(|m: Vec<bool>| m@),
            styles_of(runs@),
        ),
        forall|i: int| 0 <= i < lines@.len() ==> concat(run_texts(#[trigger] lines_view(res@)[i])) == lines@[i]@,
{
    let ghost target = runs_of(
        strings_view(lines@),
        lines_changes_view(changes@),
        marks@.map_values(|m: Vec<bool>| m@),
        styles_of(runs@),
    );
    let mut res: Vec<Vec<Piece>> = Vec::new();
    for i in 0..lines.len()
        invariant
            target == runs_of(
                strings_view(lines@),
                lines_changes_view(changes@),
                marks@.map_values(|m: Vec<bool>| m@),
                styles_of(runs@),
            ),
            runs@.len() == lines@.len(),
            marks@.len() == lines@.len(),
            changes@.len() == lines@.len(),
            forall|i: int| 0 <= i < lines@.len() ==> runs_fit((#[trigger] runs@[i])@, changes_view(changes@[i]@), lines@[i]@),
            forall|i: int| 0 <= i < lines@.len() ==> line_ready(changes@[i], lines@[i], #[trigger] marks@[i]),
            res@.len() == i,
            forall|j: int| 0 <= j < i ==> lines_view(res@)[j] == target[j],
            forall|j: int| 0 <= j < i ==> concat(run_texts(#[trigger] lines_view(res@)[j])) == lines@[j]@,
    {
        assert(line_ready(changes@[i as int], lines@[i as int], marks@[i as int]));
        assert(runs_fit(runs@[i as int]@, changes_view(changes@[i as int]@), lines@[i as int]@));
        let pieces = assemble_line(&runs[i], &marks[i], &changes[i], &lines[i]);
        proof {
            assert(line_styles(runs@[i as int]@) == styles_of(runs@)[i as int]);
            assert(pieces@.map_values(|p: Piece| piece_view(p)) == target[i as int]);
        }
        let ghost before = res@;
        res.push(pieces);
        proof {
            assert forall|j: int| 0 <= j < i + 1 implies lines_view(res@)[j] == target[j] && concat(
                run_texts(#[trigger] lines_view(res@)[j]),
            ) == lines@[j]@ by {
                if j < i {
                    assert(lines_view(res@)[j] == lines_view(before)[j]);
                }
            }
        }
    }
    assert(lines_view(res@) =~= target);
    res
}

/// Bound `k` lies within the line.
proof fn lemma_bounds_within(bs: Seq<(int, int)>, k: int, len: int)
    requires
        0 <= k < bs.len(),
        bs[0].0 == 0,
        bs[bs.len() - 1].1 == len,
        forall|q: int| 0 < q < bs.len() ==> (#[trigger] bs[q]).0 == bs[q - 1].1,
        forall|q: int| 0 <= q < bs.len() ==> (#[trigger] bs[q]).0 < bs[q].1,
    ensures
        0 <= bs[k].0 < bs[k].1 <= len,
    decreases bs.len() - k,
{
    lemma_bounds_from_start(bs, k);
    if k < bs.len() - 1 {
        lemma_bounds_within(bs, k + 1, len);
        assert(bs[k + 1].0 == bs[k].1);
    }
}

proof fn lemma_bounds_from_start(bs: Seq<(int, int)>, k: int)
    requires
        0 <= k < bs.len(),
        bs[0].0 == 0,
        forall|q: int| 0 < q < bs.len() ==> (#[trigger] bs[q]).0 == bs[q - 1].1,
        forall|q: int| 0 <= q < bs.len() ==> (#[trigger] bs[q]).0 < bs[q].1,
    ensures
        0 <= bs[k].0,
    decreases k,
{
    if k > 0 {
        lemma_bounds_from_start(bs, k - 1);
        assert(bs[k].0 == bs[k - 1].1);
    }
}

/// Text ending in line breaks after a part without a final one loses exactly them.
proof fn lemma_trim_tail(b: Seq<char>, z: Seq<char>)
    requires
        b.len() == 0 || (b.last() != '\n' && b.last() != '\r'),
        forall|j: int| 0 <= j < z.len() ==> z[j] == '\n' || z[j] == '\r',
    ensures
        trim_line_breaks(b + z) == b,
    decreases z.len(),
{
    if z.len() == 0 {
        assert(b + z =~= b);
    } else {
        assert((b + z).drop_last() =~= b + z.drop_last());
        assert((b + z).last() == z.last());
        lemma_trim_tail(b, z.drop_last());
    }
}

/// Trimming keeps a prefix and drops only line breaks after it.
proof fn lemma_trim_prefix(s: Seq<char>)
    ensures
        trim_line_breaks(s).len() <= s.len(),
        trim_line_breaks(s) == s.take(trim_line_breaks(s).len() as int),
        forall|j: int| trim_line_breaks(s).len() <= j < s.len() ==> s[j] == '\n' || s[j] == '\r',
        trim_line_breaks(s).len() == 0 || (trim_line_breaks(s).last() != '\n' && trim_line_breaks(s).last()
            != '\r'),
    decreases s.len(),
{
    if s.len() > 0 && (s.last() == '\n' || s.last() == '\r') {
        let d = s.drop_last();
        lemma_trim_prefix(d);
        let t = trim_line_breaks(d);
        assert(trim_line_breaks(s) == t);
        assert(d.take(t.len() as int) =~= s.take(t.len() as int));
        assert forall|j: int| t.len() <= j < s.len() implies s[j] == '\n' || s[j] == '\r' by {
            if j < d.len() {
                assert(s[j] == d[j]);
            }
        }
    } else {
        assert(trim_line_breaks(s) == s);
        assert(s.take(s.len() as int) =~= s);
    }
}

/// Trimming line breaks run by run trims the whole, when the text before the whole's final
/// line breaks holds none.
proof fn lemma_trim_runs(ts: Seq<Seq<char>>)
    requires
        breaks_only_at_end(concat(ts)),
    ensures
        concat(ts.map_values(|t: Seq<char>| trim_line_breaks(t))) == trim_line_breaks(concat(ts)),
    decreases ts.len(),
{
    let s = concat(ts);
    lemma_trim_prefix(s);
    let m = trim_line_breaks(s).len() as int;
    if ts.len() == 0 {
        assert(ts.map_values(|t: Seq<char>| trim_line_breaks(t)) =~= Seq::<Seq<char>>::empty());
        assert(s =~= Seq::<char>::empty());
    } else {
        let init = ts.drop_last();
        let r = ts.last();
        let c = concat(init);
        assert(s == c + r);
        assert(ts.map_values(|t: Seq<char>| trim_line_breaks(t)).drop_last() =~= init.map_values(
            |t: Seq<char>| trim_line_breaks(t),
        ));
        if r.len() <= s.len() - m {
            // The last run holds only line breaks.
            assert forall|j: int| 0 <= j < r.len() implies r[j] == '\n' || r[j] == '\r' by {
                assert(r[j] == s[c.len() + j]);
            }
            lemma_trim_tail(Seq::empty(), r);
            assert(Seq::<char>::empty() + r =~= r);
            assert(s.take(m) + s.subrange(m, c.len() as int) =~= c);
            assert forall|j: int| 0 <= j < s.subrange(m, c.len() as int).len() implies s.subrange(m, c.len() as int)[j]
                == '\n' || s.subrange(m, c.len() as int)[j] == '\r' by {
                assert(s.subrange(m, c.len() as int)[j] == s[m + j]);
            }
            lemma_trim_tail(s.take(m), s.subrange(m, c.len() as int));
            assert forall|j: int| 0 <= j < trim_line_breaks(c).len() implies c[j] != '\n' && c[j] != '\r' by {
                assert(c[j] == s[j]);
            }
            lemma_trim_runs(init);
            assert(trim_line_breaks(r) =~= Seq::<char>::empty());
            assert(trim_line_breaks(c) + Seq::<char>::empty() =~= trim_line_breaks(c));
        } else {
            // The last run holds the end of the text before the line breaks, then them.
            let l = c.len() as int;
            assert(c =~= s.take(l));
            assert forall|j: int| 0 <= j < trim_line_breaks(c).len() implies c[j] != '\n' && c[j] != '\r' by {
                lemma_trim_prefix(c);
                assert(c[j] == s[j]);
            }
            if l > 0 {
                assert(c.last() == s[l - 1]);
            }
            lemma_trim_tail(c, Seq::empty());
            assert(c + Seq::<char>::empty() =~= c);
            lemma_trim_runs(init);
            let body = s.subrange(l, m);
            let tail = s.subrange(m, s.len() as int);
            assert(r =~= body + tail);
            assert(body.last() == s[m - 1]);
            assert forall|j: int| 0 <= j < tail.len() implies tail[j] == '\n' || tail[j] == '\r' by {
                assert(tail[j] == s[m + j]);
            }
            lemma_trim_tail(body, tail);
            assert(c + body =~= s.take(m));
        }
    }
}

/// Cleaning texts one by one cleans them together.
proof fn lemma_clean_each(ts: Seq<Seq<char>>)
    ensures
        concat(ts.map_values(|t: Seq<char>| clean_spec(t))) == clean_spec(concat(ts)),
    decreases ts.len(),
{
    if ts.len() == 0 {
        assert(ts.map_values(|t: Seq<char>| clean_spec(t)) =~= Seq::<Seq<char>>::empty());
    } else {
        lemma_clean_each(ts.drop_last());
        assert(ts.map_values(|t: Seq<char>| clean_spec(t)).drop_last() =~= ts.drop_last().map_values(
            |t: Seq<char>| clean_spec(t),
        ));
        lemma_clean_concat(concat(ts.drop_last()), ts.last());
    }
}

/// Runs that make up a line whose line breaks are all at its end are drawn as the whole line,
/// without its line breaks, cleaned.
proof fn lemma_whole_line(ps: Seq<PieceV>, line: Seq<char>)
    requires
        concat(run_texts(ps)) == line,
        breaks_only_at_end(line),
    ensures
        line_clean_text(ps) == clean_spec(trim_line_breaks(line)),
{
    let ts = run_texts(ps);
    lemma_trim_runs(ts);
    let trimmed = ts.map_values(|t: Seq<char>| trim_line_breaks(t));
    lemma_clean_each(trimmed);
    assert(ps.map_values(|p: PieceV| clean_spec(trim_line_breaks(p.0))) =~= trimmed.map_values(
        |t: Seq<char>| clean_spec(t),
    ));
}

/// The text of highlighted runs, one after another.
pub open spec fn runs_text(rs: Seq<StyledV>) -> Seq<char> {
    concat(rs.map_values(|r: StyledV| r.0))
}

/// Line `i` of the highlighted lines is the first one numbered `n`.
pub open spec fn first_numbered(h: Seq<(usize, Vec<StyledText>)>, n: usize, i: int) -> bool {
    0 <= i < h.len() && h[i].0 == n && forall|j: int| 0 <= j < i ==> h[j].0 != n
}

/// Which highlighted line a line of the diff is drawn from: the first one with the diff line's
/// number on that side, when its text is still the diff line's text. Where the file changed
/// between reading the diff and reading the file, the diff wins: the line is drawn plain
/// (`None`).
pub fn highlighted_line_for(highlighted: &Vec<(usize, Vec<StyledText>)>, number: Option<usize>, text: &str) -> (res: Option<usize>)
    ensures
        match res {
            Some(i) => number matches Some(n) && first_numbered(highlighted@, n, i as int)
                && runs_text(styled_seq(highlighted@[i as int].1@)) == text@,
            None => number matches Some(n) ==> forall|i: int|
                first_numbered(highlighted@, n, i) ==> runs_text(styled_seq(highlighted@[i].1@)) != text@,
        },
{
    let n = match number {
        Some(n) => n,
        None => {
            return None;
        },
    };
    let mut i: usize = 0;
    while i < highlighted.len()
        invariant
            number == Some(n),
            i <= highlighted@.len(),
            forall|j: int| 0 <= j < i ==> highlighted@[j].0 != n,
        decreases highlighted@.len() - i,
    {
        if highlighted[i].0 == n {
            let runs = &highlighted[i].1;
            let ghost rs = styled_seq(runs@);
            let mut joined = String::new();
            for k in 0..runs.len()
                invariant
                    rs == styled_seq(runs@),
                    joined@ == concat(rs.take(k as int).map_values(|r: StyledV| r.0)),
            {
                assert(rs.take(k + 1).map_values(|r: StyledV| r.0).drop_last() =~= rs.take(k as int).map_values(
                    |r: StyledV| r.0,
                ));
                push_str(&mut joined, runs[k].text.as_str());
            }
            assert(rs.take(runs@.len() as int) =~= rs);
            assert(joined@ == runs_text(styled_seq(highlighted@[i as int].1@)));
            if str_eq(joined.as_str(), text) {
                return Some(i);
            }
            proof {
                assert forall|m: int| first_numbered(highlighted@, n, m) implies runs_text(
                    styled_seq(highlighted@[m].1@),
                ) != text@ by {
                    if m != i {
                        if m < i {
                        } else {
                            assert(highlighted@[i as int].0 == n);
                        }
                    }
                }
            }
            return None;
        }
        i += 1;
    }
    None
}

} // verus!
