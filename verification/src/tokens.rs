//! Graphemes, display widths and lexical tokens of a line of code, and how code and file
//! names wrap to a width without splitting a grapheme or a token.
use std::ops::Range;

use unicode_segmentation::UnicodeSegmentation;
use unicode_width::UnicodeWidthStr;
use vstd::prelude::*;
use vstd::utf8::encode_utf8;

use crate::text::{chars_eq, chars_of, is_whitespace, is_ws, push_str};

verus! {

// ---------------------------------------------------------------------------
// What the outside crates compute
/// The strings of a sequence, one after another.
pub open spec fn concat(gs: Seq<Seq<char>>) -> Seq<char>
    decreases gs.len(),
{
    if gs.len() == 0 {
        Seq::empty()
    } else {
        concat(gs.drop_last()) + gs.last()
    }
}

/// The extended grapheme clusters of a text.
pub uninterp spec fn grapheme_split(s: Seq<char>) -> Seq<Seq<char>>;

/// unicode-segmentation: `UnicodeSegmentation::graphemes(text, true)`, the extended grapheme
/// clusters of the text. Stated: which clusters they are is only named; none is empty, and in
/// order they make up the text.
#[verifier::external_body]
pub(crate) fn graphemes(text: &str) -> (res: Vec<String>)
    ensures
        res@.map_values(|g: String| g@) == grapheme_split(text@),
        concat(res@.map_values(|g: String| g@)) == text@,
        forall|i: int| 0 <= i < res@.len() ==> (#[trigger] res@[i])@.len() > 0,
{
    text.graphemes(true).map(|g| g.to_owned()).collect()
}

/// The displayed width of a text, in terminal columns.
pub uninterp spec fn display_width(s: Seq<char>) -> usize;

/// unicode-width: `UnicodeWidthStr::width`, the displayed width in columns. Only named.
#[verifier::external_body]
pub(crate) fn str_width(s: &str) -> (res: usize)
    ensures
        res == display_width(s@),
{
    s.width()
}

/// Whether a character is alphabetic or numeric in Unicode.
pub uninterp spec fn alphanumeric(c: char) -> bool;

/// std: `char::is_alphanumeric`, Unicode's `Alphabetic` or `Numeric`. Only named.
#[verifier::external_body]
fn is_alphanumeric(c: char) -> (res: bool)
    ensures
        res == alphanumeric(c),
{
    c.is_alphanumeric()
}

// ---------------------------------------------------------------------------
// Byte offsets of graphemes
/// The byte offset of grapheme `k`: the UTF-8 length of the graphemes before it.
pub open spec fn byte_offset(gs: Seq<Seq<char>>, k: int) -> int {
    encode_utf8(concat(gs.take(k))).len() as int
}

/// UTF-8 encodes a concatenation piece by piece.
pub proof fn lemma_encode_concat(a: Seq<char>, b: Seq<char>)
    ensures
        encode_utf8(a + b) == encode_utf8(a) + encode_utf8(b),
    decreases a.len(),
{
    if a.len() == 0 {
        assert(a + b =~= b);
        assert(Seq::<u8>::empty() + encode_utf8(b) =~= encode_utf8(b));
    } else {
        lemma_encode_concat(a.drop_first(), b);
        assert((a + b).drop_first() =~= a.drop_first() + b);
        assert((a + b)[0] == a[0]);
        let e0 = vstd::utf8::encode_scalar(a[0] as u32);
        assert(e0 + (encode_utf8(a.drop_first()) + encode_utf8(b)) =~= (e0 + encode_utf8(
            a.drop_first(),
        )) + encode_utf8(b));
    }
}

/// The offset of the next grapheme adds the length of this one.
pub proof fn lemma_byte_offset_step(gs: Seq<Seq<char>>, k: int)
    requires
        0 <= k < gs.len(),
    ensures
        byte_offset(gs, k + 1) == byte_offset(gs, k) + encode_utf8(gs[k]).len(),
{
    assert(gs.take(k + 1).drop_last() =~= gs.take(k));
    assert(gs.take(k + 1).last() == gs[k]);
    lemma_encode_concat(concat(gs.take(k)), gs[k]);
}

/// Offsets grow with the index.
pub proof fn lemma_byte_offset_mono(gs: Seq<Seq<char>>, j: int, k: int)
    requires
        0 <= j <= k <= gs.len(),
    ensures
        byte_offset(gs, j) <= byte_offset(gs, k),
    decreases k - j,
{
    if j < k {
        lemma_byte_offset_mono(gs, j, k - 1);
        lemma_byte_offset_step(gs, k - 1);
    }
}

// ---------------------------------------------------------------------------
// Kinds of graphemes
/// Every character is `White_Space`.
pub open spec fn all_ws(g: Seq<char>) -> bool {
    forall|k: int| 0 <= k < g.len() ==> is_ws(#[trigger] g[k])
}

/// Every character is an ASCII digit.
pub open spec fn all_digits(g: Seq<char>) -> bool {
    forall|k: int| 0 <= k < g.len() ==> '0' <= #[trigger] g[k] <= '9'
}

/// A grapheme that can be part of an identifier: it starts with a letter, a digit, `_` or `$`.
pub open spec fn identifier_spec(g: Seq<char>) -> bool {
    g.len() > 0 && (alphanumeric(g[0]) || g[0] == '_' || g[0] == '$')
}

/// An operator character.
pub open spec fn operator_char(c: char) -> bool {
    c == '+' || c == '-' || c == '*' || c == '/' || c == '%' || c == '=' || c == '!' || c == '<'
        || c == '>' || c == ':' || c == '&' || c == '|' || c == '^' || c == '?' || c == '~' || c
        == '.'
}

/// A grapheme of one operator character (one byte long).
pub open spec fn operator_spec(g: Seq<char>) -> bool {
    g.len() == 1 && operator_char(g[0])
}

/// A quote that opens a string or character literal.
pub open spec fn is_quote(g: Seq<char>) -> bool {
    g == seq!['"'] || g == seq!['\''] || g == seq!['`']
}

fn all_ws_exec(g: &Vec<char>) -> (res: bool)
    ensures
        res == all_ws(g@),
{
    for k in 0..g.len()
        invariant
            forall|j: int| 0 <= j < k ==> is_ws(#[trigger] g@[j]),
    {
        if !is_whitespace(g[k]) {
            return false;
        }
    }
    true
}

fn all_digits_exec(g: &Vec<char>) -> (res: bool)
    ensures
        res == all_digits(g@),
{
    for k in 0..g.len()
        invariant
            forall|j: int| 0 <= j < k ==> '0' <= #[trigger] g@[j] <= '9',
    {
        if !('0' <= g[k] && g[k] <= '9') {
            return false;
        }
    }
    true
}

fn identifier_exec(g: &Vec<char>) -> (res: bool)
    ensures
        res == identifier_spec(g@),
{
    g.len() > 0 && (is_alphanumeric(g[0]) || g[0] == '_' || g[0] == '$')
}

fn operator_exec(g: &Vec<char>) -> (res: bool)
    ensures
        res == operator_spec(g@),
{
    if g.len() != 1 {
        return false;
    }
    let c = g[0];
    c == '+' || c == '-' || c == '*' || c == '/' || c == '%' || c == '=' || c == '!' || c == '<'
        || c == '>' || c == ':' || c == '&' || c == '|' || c == '^' || c == '?' || c == '~' || c
        == '.'
}

/// Whether `g` is exactly the one character `c`.
fn is_char(g: &Vec<char>, c: char) -> (res: bool)
    ensures
        res == (g@ == seq![c]),
{
    if g.len() == 1 && g[0] == c {
        assert(g@ =~= seq![c]);
        true
    } else {
        false
    }
}

/// Whether a grapheme can be part of an identifier: its first character is alphanumeric,
/// `_` or `$`.
pub fn identifier(grapheme: &str) -> (res: bool)
    ensures
        res == identifier_spec(grapheme@),
{
    identifier_exec(&chars_of(grapheme))
}

/// Whether a grapheme is one of the operator characters `+-*/%=!<>:&|^?~.`.
pub fn operator(grapheme: &str) -> (res: bool)
    ensures
        res == operator_spec(grapheme@),
{
    operator_exec(&chars_of(grapheme))
}

// ---------------------------------------------------------------------------
// Tokens
/// Whether the delimiter (`cur`, tripled when `d` is 3) follows at `from`.
pub open spec fn closes_at(gs: Seq<Seq<char>>, cur: Seq<char>, d: int, from: int) -> bool {
    if d == 3 {
        from + 2 < gs.len() && gs[from] == cur && gs[from + 1] == cur && gs[from + 2] == cur
    } else {
        from < gs.len() && gs[from] == cur
    }
}

/// Scans a literal from `end` for its closing delimiter (`d` copies of `cur`), skipping a
/// grapheme after each backslash: where the literal ends, and whether it was closed.
/// An unclosed literal runs to the end of the line.
pub open spec fn quote_scan(gs: Seq<Seq<char>>, cur: Seq<char>, d: int, end: int) -> (int, bool)
    decreases gs.len() + 1 - end,
{
    if end < 0 || end >= gs.len() {
        (gs.len() as int, false)
    } else if gs[end] == seq!['\\'] {
        quote_scan(gs, cur, d, end + 2)
    } else if closes_at(gs, cur, d, end) {
        (end + d, true)
    } else {
        quote_scan(gs, cur, d, end + 1)
    }
}

/// The end of a run of whitespace graphemes from `i`.
pub open spec fn ws_run(gs: Seq<Seq<char>>, i: int) -> int
    decreases gs.len() - i,
{
    if 0 <= i < gs.len() && all_ws(gs[i]) {
        ws_run(gs, i + 1)
    } else {
        i
    }
}

/// The end of a run of identifier graphemes from `i`.
pub open spec fn ident_run(gs: Seq<Seq<char>>, i: int) -> int
    decreases gs.len() - i,
{
    if 0 <= i < gs.len() && identifier_spec(gs[i]) {
        ident_run(gs, i + 1)
    } else {
        i
    }
}

/// The end of a run of operator graphemes from `i`.
pub open spec fn op_run(gs: Seq<Seq<char>>, i: int) -> int
    decreases gs.len() - i,
{
    if 0 <= i < gs.len() && operator_spec(gs[i]) {
        op_run(gs, i + 1)
    } else {
        i
    }
}

/// Whether grapheme `i` continues a number: an identifier grapheme (digits, letters of a
/// suffix or radix), a sign after an exponent letter, or a decimal point before a digit.
pub open spec fn continues_number(gs: Seq<Seq<char>>, i: int) -> bool {
    let next = gs[i];
    ||| identifier_spec(next)
    ||| (next == seq!['+'] || next == seq!['-']) && (gs[i - 1] == seq!['e'] || gs[i - 1]
        == seq!['E'] || gs[i - 1] == seq!['p'] || gs[i - 1] == seq!['P'])
    ||| next == seq!['.'] && i + 1 < gs.len() && all_digits(gs[i + 1])
}

/// The end of a number from `i` (the grapheme before `i` is part of it).
pub open spec fn number_run(gs: Seq<Seq<char>>, i: int) -> int
    decreases gs.len() - i,
{
    if 1 <= i < gs.len() && continues_number(gs, i) {
        number_run(gs, i + 1)
    } else {
        i
    }
}

/// Where the token that starts at grapheme `i` ends: a string or character literal (with a
/// triple delimiter when the quote is tripled; a lone `'` that is not closed is one token), a
/// run of whitespace, a number, an identifier, a run of operators, or one grapheme.
pub open spec fn token_end(gs: Seq<Seq<char>>, i: int) -> int {
    let cur = gs[i];
    if is_quote(cur) {
        let triple = i + 2 < gs.len() && gs[i + 1] == cur && gs[i + 2] == cur;
        let d = if triple {
            3int
        } else {
            1int
        };
        let scan = quote_scan(gs, cur, d, i + d);
        if scan.1 || cur != seq!['\''] {
            scan.0
        } else {
            i + 1
        }
    } else if all_ws(cur) {
        ws_run(gs, i + 1)
    } else if all_digits(cur) {
        number_run(gs, i + 1)
    } else if identifier_spec(cur) {
        ident_run(gs, i + 1)
    } else if operator_spec(cur) {
        op_run(gs, i + 1)
    } else {
        i + 1
    }
}

/// The tokens from grapheme `i` on, as ranges of grapheme indices.
pub open spec fn tokens_from(gs: Seq<Seq<char>>, i: int) -> Seq<(int, int)>
    decreases gs.len() - i,
{
    if i < 0 || i >= gs.len() {
        Seq::empty()
    } else {
        let e = token_end(gs, i);
        if e <= i || e > gs.len() {
            Seq::empty()
        } else {
            seq![(i, e)] + tokens_from(gs, e)
        }
    }
}

/// Grapheme ranges as byte ranges.
pub open spec fn byte_ranges(gs: Seq<Seq<char>>, ts: Seq<(int, int)>) -> Seq<(int, int)> {
    ts.map_values(|t: (int, int)| (byte_offset(gs, t.0), byte_offset(gs, t.1)))
}

/// The tokens of a line of code, as byte ranges.
pub open spec fn token_byte_ranges(gs: Seq<Seq<char>>) -> Seq<(int, int)> {
    byte_ranges(gs, tokens_from(gs, 0))
}

/// Byte ranges as pairs of integers.
pub open spec fn ranges_view(rs: Seq<Range<usize>>) -> Seq<(int, int)> {
    rs.map_values(|r: Range<usize>| (r.start as int, r.end as int))
}

pub proof fn lemma_quote_scan(gs: Seq<Seq<char>>, cur: Seq<char>, d: int, end: int)
    requires
        d == 1 || d == 3,
        0 <= end,
    ensures
        quote_scan(gs, cur, d, end).0 >= end || end > gs.len(),
        quote_scan(gs, cur, d, end).0 <= gs.len(),
        !quote_scan(gs, cur, d, end).1 ==> quote_scan(gs, cur, d, end).0 == gs.len(),
    decreases gs.len() + 1 - end,
{
    if end >= gs.len() {
    } else if gs[end] == seq!['\\'] {
        lemma_quote_scan(gs, cur, d, end + 2);
    } else if closes_at(gs, cur, d, end) {
    } else {
        lemma_quote_scan(gs, cur, d, end + 1);
    }
}

pub proof fn lemma_runs(gs: Seq<Seq<char>>, i: int)
    requires
        0 <= i <= gs.len(),
    ensures
        i <= ws_run(gs, i) <= gs.len(),
        i <= ident_run(gs, i) <= gs.len(),
        i <= op_run(gs, i) <= gs.len(),
        i <= number_run(gs, i) <= gs.len(),
    decreases gs.len() - i,
{
    if i < gs.len() {
        lemma_runs(gs, i + 1);
    }
}

/// A token is never empty and never runs past the line.
pub proof fn lemma_token_end(gs: Seq<Seq<char>>, i: int)
    requires
        0 <= i < gs.len(),
    ensures
        i < token_end(gs, i) <= gs.len(),
{
    lemma_runs(gs, i + 1);
    let cur = gs[i];
    if is_quote(cur) {
        let triple = i + 2 < gs.len() && gs[i + 1] == cur && gs[i + 2] == cur;
        let d = if triple {
            3int
        } else {
            1int
        };
        lemma_quote_scan(gs, cur, d, i + d);
    }
}

/// The tokens tile the graphemes from `i`: the first starts at `i`, each ends where the next
/// starts, the last ends at the end of the line, and none is empty.
pub proof fn lemma_tokens_tile(gs: Seq<Seq<char>>, i: int)
    requires
        0 <= i <= gs.len(),
    ensures
        ({
            let ts = tokens_from(gs, i);
            &&& (ts.len() == 0 <==> i == gs.len())
            &&& ts.len() > 0 ==> ts[0].0 == i && ts.last().1 == gs.len()
            &&& forall|k: int| 0 <= k < ts.len() ==> (#[trigger] ts[k]).0 < ts[k].1
            &&& forall|k: int| 0 <= k < ts.len() - 1 ==> (#[trigger] ts[k]).1 == ts[k + 1].0
        }),
    decreases gs.len() - i,
{
    if i < gs.len() {
        lemma_token_end(gs, i);
        let e = token_end(gs, i);
        lemma_tokens_tile(gs, e);
        let rest = tokens_from(gs, e);
        let ts = tokens_from(gs, i);
        assert(ts == seq![(i, e)] + rest);
        assert forall|k: int| 0 <= k < ts.len() implies (#[trigger] ts[k]).0 < ts[k].1 by {
            if k > 0 {
                assert(ts[k] == rest[k - 1]);
            }
        }
        assert forall|k: int| 0 <= k < ts.len() - 1 implies (#[trigger] ts[k]).1 == ts[k + 1].0 by {
            if k > 0 {
                assert(ts[k] == rest[k - 1]);
                assert(ts[k + 1] == rest[k]);
            }
        }
        if rest.len() > 0 {
            assert(ts.last() == rest.last());
        }
    }
}

/// A non-empty text has a non-empty encoding.
pub proof fn lemma_encode_nonempty(g: Seq<char>)
    requires
        g.len() > 0,
    ensures
        encode_utf8(g).len() > 0,
{
    assert(encode_utf8(g) == vstd::utf8::encode_scalar(g[0] as u32) + encode_utf8(g.drop_first()));
}

/// With no empty grapheme, later graphemes start at later bytes.
pub proof fn lemma_byte_offset_strict(gs: Seq<Seq<char>>, a: int, b: int)
    requires
        forall|i: int| 0 <= i < gs.len() ==> (#[trigger] gs[i]).len() > 0,
        0 <= a < b <= gs.len(),
    ensures
        byte_offset(gs, a) < byte_offset(gs, b),
{
    lemma_byte_offset_step(gs, a);
    lemma_encode_nonempty(gs[a]);
    lemma_byte_offset_mono(gs, a + 1, b);
}

/// The tokens of a line cover it without gap or overlap and never split a grapheme: the
/// first starts at byte 0, each ends where the next starts, the last ends at the end of the
/// line, none is empty, and each starts and ends at a grapheme boundary.
pub proof fn law_tokens_tile_the_line(gs: Seq<Seq<char>>)
    requires
        forall|i: int| 0 <= i < gs.len() ==> (#[trigger] gs[i]).len() > 0,
    ensures
        ({
            let ts = tokens_from(gs, 0);
            let rs = token_byte_ranges(gs);
            &&& rs.len() == ts.len()
            &&& (rs.len() == 0 <==> gs.len() == 0)
            &&& rs.len() > 0 ==> rs[0].0 == 0 && rs.last().1 == encode_utf8(concat(gs)).len()
            &&& forall|k: int| 0 <= k < rs.len() ==> (#[trigger] rs[k]).0 < rs[k].1
            &&& forall|k: int| 0 <= k < rs.len() - 1 ==> (#[trigger] rs[k]).1 == rs[k + 1].0
            &&& forall|k: int|
                0 <= k < rs.len() ==> 0 <= (#[trigger] ts[k]).0 < ts[k].1 <= gs.len() && rs[k] == (
                    byte_offset(gs, ts[k].0),
                    byte_offset(gs, ts[k].1),
                )
        }),
{
    lemma_tokens_tile(gs, 0);
    let ts = tokens_from(gs, 0);
    let rs = token_byte_ranges(gs);
    assert(gs.take(0) =~= Seq::<Seq<char>>::empty());
    assert(gs.take(gs.len() as int) =~= gs);
    assert forall|k: int| 0 <= k < ts.len() implies 0 <= (#[trigger] ts[k]).0 < ts[k].1 <= gs.len() by {
        lemma_tokens_bounds(gs, 0, k);
    }
    assert forall|k: int| 0 <= k < rs.len() implies (#[trigger] rs[k]).0 < rs[k].1 by {
        lemma_tokens_bounds(gs, 0, k);
        lemma_byte_offset_strict(gs, ts[k].0, ts[k].1);
    }
}

/// Every token from `i` lies within the graphemes from `i`.
pub proof fn lemma_tokens_bounds(gs: Seq<Seq<char>>, i: int, k: int)
    requires
        0 <= i <= gs.len(),
        0 <= k < tokens_from(gs, i).len(),
    ensures
        i <= tokens_from(gs, i)[k].0 < tokens_from(gs, i)[k].1 <= gs.len(),
    decreases gs.len() - i,
{
    lemma_token_end(gs, i);
    let e = token_end(gs, i);
    if k > 0 {
        lemma_tokens_bounds(gs, e, k - 1);
        assert(tokens_from(gs, i)[k] == tokens_from(gs, e)[k - 1]);
    }
}

fn ws_run_exec(gv: &Vec<Vec<char>>, i: usize) -> (res: usize)
    requires
        i <= gv@.len(),
    ensures
        res == ws_run(gv@.map_values(|v: Vec<char>| v@), i as int),
{
    let ghost gs = gv@.map_values(|v: Vec<char>| v@);
    let mut k = i;
    while k < gv.len() && all_ws_exec(&gv[k])
        invariant
            i <= k <= gv@.len(),
            gs == gv@.map_values(|v: Vec<char>| v@),
            ws_run(gs, i as int) == ws_run(gs, k as int),
        decreases gv@.len() - k,
    {
        k += 1;
    }
    k
}

fn ident_run_exec(gv: &Vec<Vec<char>>, i: usize) -> (res: usize)
    requires
        i <= gv@.len(),
    ensures
        res == ident_run(gv@.map_values(|v: Vec<char>| v@), i as int),
{
    let ghost gs = gv@.map_values(|v: Vec<char>| v@);
    let mut k = i;
    while k < gv.len() && identifier_exec(&gv[k])
        invariant
            i <= k <= gv@.len(),
            gs == gv@.map_values(|v: Vec<char>| v@),
            ident_run(gs, i as int) == ident_run(gs, k as int),
        decreases gv@.len() - k,
    {
        k += 1;
    }
    k
}

fn op_run_exec(gv: &Vec<Vec<char>>, i: usize) -> (res: usize)
    requires
        i <= gv@.len(),
    ensures
        res == op_run(gv@.map_values(|v: Vec<char>| v@), i as int),
{
    let ghost gs = gv@.map_values(|v: Vec<char>| v@);
    let mut k = i;
    while k < gv.len() && operator_exec(&gv[k])
        invariant
            i <= k <= gv@.len(),
            gs == gv@.map_values(|v: Vec<char>| v@),
            op_run(gs, i as int) == op_run(gs, k as int),
        decreases gv@.len() - k,
    {
        k += 1;
    }
    k
}

fn number_run_exec(gv: &Vec<Vec<char>>, i: usize) -> (res: usize)
    requires
        1 <= i <= gv@.len(),
    ensures
        res == number_run(gv@.map_values(|v: Vec<char>| v@), i as int),
{
    let ghost gs = gv@.map_values(|v: Vec<char>| v@);
    let mut k = i;
    while k < gv.len()
        invariant
            1 <= i <= k <= gv@.len(),
            gs == gv@.map_values(|v: Vec<char>| v@),
            number_run(gs, i as int) == number_run(gs, k as int),
        decreases gv@.len() - k,
    {
        let next = &gv[k];
        let prev = &gv[k - 1];
        let exponent_sign = (is_char(next, '+') || is_char(next, '-')) && (is_char(prev, 'e')
            || is_char(prev, 'E') || is_char(prev, 'p') || is_char(prev, 'P'));
        let decimal = is_char(next, '.') && k + 1 < gv.len() && all_digits_exec(&gv[k + 1]);
        if identifier_exec(next) || exponent_sign || decimal {
            k += 1;
        } else {
            return k;
        }
    }
    k
}

/// Whether the delimiter (`cur`, tripled when `d` is 3) follows at `end`.
fn closes_at_exec(gv: &Vec<Vec<char>>, cur: &Vec<char>, d: usize, end: usize) -> (res: bool)
    requires
        end < gv@.len(),
    ensures
        res == closes_at(gv@.map_values(|v: Vec<char>| v@), cur@, d as int, end as int),
{
    let len = gv.len();
    if d == 3 {
        len - end > 2 && chars_eq(&gv[end], cur) && chars_eq(&gv[end + 1], cur) && chars_eq(
            &gv[end + 2],
            cur,
        )
    } else {
        chars_eq(&gv[end], cur)
    }
}

fn quote_scan_exec(gv: &Vec<Vec<char>>, cur: &Vec<char>, d: usize, start: usize) -> (res: (
    usize,
    bool,
))
    requires
        d == 1 || d == 3,
        start <= gv@.len(),
    ensures
        res.0 == quote_scan(gv@.map_values(|v: Vec<char>| v@), cur@, d as int, start as int).0,
        res.1 == quote_scan(gv@.map_values(|v: Vec<char>| v@), cur@, d as int, start as int).1,
{
    let ghost gs = gv@.map_values(|v: Vec<char>| v@);
    let mut end = start;
    while end < gv.len()
        invariant
            start <= end <= gv@.len(),
            d == 1 || d == 3,
            gs == gv@.map_values(|v: Vec<char>| v@),
            quote_scan(gs, cur@, d as int, start as int) == quote_scan(gs, cur@, d as int, end as int),
        decreases gv@.len() - end,
    {
        if is_char(&gv[end], '\\') {
            if gv.len() - end <= 2 {
                assert(quote_scan(gs, cur@, d as int, end + 2) == (gs.len() as int, false));
                return (gv.len(), false);
            }
            end = end + 2;
        } else if closes_at_exec(gv, cur, d, end) {
            return (end + d, true);
        } else {
            end = end + 1;
        }
    }
    (gv.len(), false)
}

/// [`token_end`] on the graphemes.
fn token_end_exec(gv: &Vec<Vec<char>>, i: usize) -> (res: usize)
    requires
        i < gv@.len(),
    ensures
        res == token_end(gv@.map_values(|v: Vec<char>| v@), i as int),
{
    let ghost gs = gv@.map_values(|v: Vec<char>| v@);
    let len = gv.len();
    let cur = &gv[i];
    assert(cur@ == gs[i as int]);
    if is_char(cur, '"') || is_char(cur, '\'') || is_char(cur, '`') {
        let triple = len - i > 2 && chars_eq(&gv[i + 1], cur) && chars_eq(&gv[i + 2], cur);
        let d: usize = if triple {
            3
        } else {
            1
        };
        proof {
            lemma_token_end(gs, i as int);
        }
        if d > len - i {
            proof {
                lemma_quote_scan(gs, cur@, d as int, i + d);
            }
            return i + 1;
        }
        let (end, closed) = quote_scan_exec(gv, cur, d, i + d);
        if closed || !is_char(cur, '\'') {
            end
        } else {
            i + 1
        }
    } else if all_ws_exec(cur) {
        ws_run_exec(gv, i + 1)
    } else if all_digits_exec(cur) {
        number_run_exec(gv, i + 1)
    } else if identifier_exec(cur) {
        ident_run_exec(gv, i + 1)
    } else if operator_exec(cur) {
        op_run_exec(gv, i + 1)
    } else {
        i + 1
    }
}

/// The graphemes of a text as character vectors, with their byte offsets (one more than
/// there are graphemes: the last is the text's length).
fn grapheme_table(text: &str) -> (res: (Vec<Vec<char>>, Vec<usize>))
    ensures
        res.0@.map_values(|v: Vec<char>| v@) == grapheme_split(text@),
        res.1@.len() == grapheme_split(text@).len() + 1,
        forall|j: int|
            0 <= j <= grapheme_split(text@).len() ==> #[trigger] res.1@[j] == byte_offset(
                grapheme_split(text@),
                j,
            ),
{
    let gs = graphemes(text);
    let ghost g = grapheme_split(text@);
    let total = text.as_bytes().len();
    let mut gv: Vec<Vec<char>> = Vec::new();
    let mut offs: Vec<usize> = Vec::new();
    offs.push(0);
    proof {
        assert(g.take(0) =~= Seq::<Seq<char>>::empty());
        assert(g.take(g.len() as int) =~= g);
    }
    for k in 0..gs.len()
        invariant
            g == gs@.map_values(|s: String| s@),
            concat(g) == text@,
            total == encode_utf8(text@).len(),
            gv@.len() == k,
            forall|j: int| 0 <= j < k ==> (#[trigger] gv@[j])@ == g[j],
            offs@.len() == k + 1,
            forall|j: int| 0 <= j <= k ==> #[trigger] offs@[j] == byte_offset(g, j),
    {
        gv.push(chars_of(gs[k].as_str()));
        let len = gs[k].as_str().as_bytes().len();
        proof {
            lemma_byte_offset_step(g, k as int);
            lemma_byte_offset_mono(g, k + 1, g.len() as int);
            assert(g.take(g.len() as int) =~= g);
        }
        offs.push(offs[k] + len);
    }
    assert(gv@.map_values(|v: Vec<char>| v@) =~= g);
    (gv, offs)
}

/// The tokens of graphemes, as ranges of grapheme indices (see [`tokens_from`]).
pub fn token_bounds(gv: &Vec<Vec<char>>) -> (res: Vec<(usize, usize)>)
    ensures
        res@.map_values(|t: (usize, usize)| (t.0 as int, t.1 as int)) == tokens_from(
            gv@.map_values(|v: Vec<char>| v@),
            0,
        ),
{
    let ghost g = gv@.map_values(|v: Vec<char>| v@);
    let mut res: Vec<(usize, usize)> = Vec::new();
    let mut i: usize = 0;
    while i < gv.len()
        invariant
            i <= gv@.len(),
            g == gv@.map_values(|v: Vec<char>| v@),
            res@.map_values(|t: (usize, usize)| (t.0 as int, t.1 as int)) + tokens_from(g, i as int)
                == tokens_from(g, 0),
        decreases gv@.len() - i,
    {
        let end = token_end_exec(gv, i);
        proof {
            lemma_token_end(g, i as int);
        }
        let ghost before = res@.map_values(|t: (usize, usize)| (t.0 as int, t.1 as int));
        res.push((i, end));
        proof {
            let rest = tokens_from(g, end as int);
            assert(tokens_from(g, i as int) == seq![(i as int, end as int)] + rest);
            assert(res@.map_values(|t: (usize, usize)| (t.0 as int, t.1 as int)) =~= before.push(
                (i as int, end as int),
            ));
            assert(before.push((i as int, end as int)) + rest =~= before + tokens_from(g, i as int));
        }
        i = end;
    }
    assert(res@.map_values(|t: (usize, usize)| (t.0 as int, t.1 as int)) + Seq::<(int, int)>::empty()
        =~= res@.map_values(|t: (usize, usize)| (t.0 as int, t.1 as int)));
    res
}

/// The lexical tokens of a line of code, as byte ranges (see [`token_end`]). Tokens depend
/// only on the text, not on how it is highlighted, and never split a grapheme (see
/// [`law_tokens_tile_the_line`]).
pub fn token_ranges(text: &str) -> (res: Vec<Range<usize>>)
    ensures
        ranges_view(res@) == token_byte_ranges(grapheme_split(text@)),
{
    let (gv, offs) = grapheme_table(text);
    let ghost g = grapheme_split(text@);
    let bounds = token_bounds(&gv);
    let ghost ts = tokens_from(g, 0);
    proof {
        lemma_tokens_tile(g, 0);
        assert forall|k: int| 0 <= k < ts.len() implies 0 <= (#[trigger] ts[k]).0 < ts[k].1 <= g.len() by {
            lemma_tokens_bounds(g, 0, k);
        }
    }
    let mut res: Vec<Range<usize>> = Vec::new();
    for k in 0..bounds.len()
        invariant
            bounds@.map_values(|t: (usize, usize)| (t.0 as int, t.1 as int)) == ts,
            ts == tokens_from(g, 0),
            forall|k: int| 0 <= k < ts.len() ==> 0 <= (#[trigger] ts[k]).0 < ts[k].1 <= g.len(),
            offs@.len() == g.len() + 1,
            forall|j: int| 0 <= j <= g.len() ==> #[trigger] offs@[j] == byte_offset(g, j),
            ranges_view(res@) == byte_ranges(g, ts.take(k as int)),
    {
        let (a, b) = bounds[k];
        assert(ts[k as int] == (a as int, b as int));
        let ghost before = ranges_view(res@);
        res.push(Range { start: offs[a], end: offs[b] });
        assert(ranges_view(res@) =~= before.push((byte_offset(g, a as int), byte_offset(g, b as int))));
        assert(byte_ranges(g, ts.take(k + 1)) =~= byte_ranges(g, ts.take(k as int)).push(
            (byte_offset(g, a as int), byte_offset(g, b as int)),
        ));
    }
    assert(ts.take(bounds@.len() as int) =~= ts);
    res
}

/// The text of each token of a line of code, in order.
pub fn token_texts(text: &str) -> (res: Vec<String>)
    ensures
        res@.map_values(|s: String| s@) == tokens_from(grapheme_split(text@), 0).map_values(
            |t: (int, int)| concat(grapheme_split(text@).subrange(t.0, t.1)),
        ),
{
    let (gv, _) = grapheme_table(text);
    let ghost g = grapheme_split(text@);
    let bounds = token_bounds(&gv);
    let ghost ts = tokens_from(g, 0);
    let ghost f = |t: (int, int)| concat(g.subrange(t.0, t.1));
    proof {
        assert forall|k: int| 0 <= k < ts.len() implies 0 <= (#[trigger] ts[k]).0 < ts[k].1 <= g.len() by {
            lemma_tokens_bounds(g, 0, k);
        }
    }
    let mut res: Vec<String> = Vec::new();
    for k in 0..bounds.len()
        invariant
            bounds@.map_values(|t: (usize, usize)| (t.0 as int, t.1 as int)) == ts,
            ts == tokens_from(g, 0),
            g == gv@.map_values(|v: Vec<char>| v@),
            forall|k: int| 0 <= k < ts.len() ==> 0 <= (#[trigger] ts[k]).0 < ts[k].1 <= g.len(),
            f == (|t: (int, int)| concat(g.subrange(t.0, t.1))),
            res@.map_values(|s: String| s@) == ts.take(k as int).map_values(f),
    {
        let (a, b) = bounds[k];
        assert(ts[k as int] == (a as int, b as int));
        let mut t = String::new();
        for j in a..b
            invariant
                a <= b <= gv@.len(),
                g == gv@.map_values(|v: Vec<char>| v@),
                t@ == concat(g.subrange(a as int, j as int)),
        {
            proof {
                assert(g.subrange(a as int, j + 1).drop_last() =~= g.subrange(a as int, j as int));
            }
            crate::text::push_chars(&mut t, &gv[j]);
        }
        let ghost before = res@.map_values(|s: String| s@);
        assert(t@ == f(ts[k as int]));
        res.push(t);
        assert(res@.map_values(|s: String| s@) =~= before.push(t@));
        assert(ts.take(k + 1).map_values(f) =~= ts.take(k as int).map_values(f).push(f(ts[k as int])));
    }
    assert(ts.take(bounds@.len() as int) =~= ts);
    res
}

/// The texts of the tokens of a line of code (see [`token_texts`]).
pub open spec fn token_texts_spec(text: Seq<char>) -> Seq<Seq<char>> {
    tokens_from(grapheme_split(text), 0).map_values(|t: (int, int)| concat(grapheme_split(text).subrange(t.0, t.1)))
}

/// How texts measure for wrapping: each one's displayed width and whether it is all whitespace.
pub open spec fn measures_of(texts: Seq<Seq<char>>) -> Seq<(usize, bool)> {
    texts.map_values(|t: Seq<char>| (display_width(t), all_ws(t)))
}

/// The tokens of a line of code measured for wrapping (see [`measures_of`]), in order: what
/// [`code_line_starts`] lays out.
pub fn token_measures(text: &str) -> (res: Vec<(usize, bool)>)
    ensures
        res@ == measures_of(token_texts_spec(text@)),
{
    let texts = token_texts(text);
    let ghost tv = token_texts_spec(text@);
    assert(texts@.map_values(|s: String| s@) == tv);
    let mut res: Vec<(usize, bool)> = Vec::new();
    for k in 0..texts.len()
        invariant
            texts@.map_values(|s: String| s@) == tv,
            res@ == measures_of(tv.take(k as int)),
    {
        assert(texts@[k as int]@ == tv[k as int]);
        let m = (str_width(texts[k].as_str()), all_ws_exec(&chars_of(texts[k].as_str())));
        res.push(m);
        assert(measures_of(tv.take(k + 1)) =~= measures_of(tv.take(k as int)).push(m));
    }
    assert(tv.take(texts@.len() as int) =~= tv);
    res
}

// ---------------------------------------------------------------------------
// Wrapping
/// Where the lines after the first begin when pieces of widths `ws` are laid out from piece
/// `k` in lines of `w` columns, the current line having begun at `start` and used `used`
/// columns: a piece that does not fit starts a new line, unless it is the first of its line.
pub open spec fn name_breaks(ws: Seq<int>, w: int, k: int, start: int, used: int) -> Seq<int>
    decreases ws.len() - k,
{
    if k < 0 || k >= ws.len() {
        Seq::empty()
    } else if k > start && used + ws[k] > w {
        seq![k] + name_breaks(ws, w, k + 1, k, ws[k])
    } else {
        name_breaks(ws, w, k + 1, start, used + ws[k])
    }
}

/// The first pieces of the lines of a wrapped name.
pub open spec fn name_starts(ws: Seq<int>, w: int) -> Seq<int> {
    seq![0int] + name_breaks(ws, w, 0, 0, 0)
}

/// The displayed widths of graphemes.
pub open spec fn widths_of(gs: Seq<Seq<char>>) -> Seq<int> {
    gs.map_values(|g: Seq<char>| display_width(g) as int)
}

/// The graphemes from `a` up to `b`, joined.
pub open spec fn joined(gs: Seq<Seq<char>>, a: int, b: int) -> Seq<char> {
    concat(gs.subrange(a, b))
}

/// The lines cut from `gs` at `starts`, the last running to `end`.
pub open spec fn cut_between(gs: Seq<Seq<char>>, starts: Seq<int>, end: int) -> Seq<Seq<char>> {
    Seq::new(starts.len(), |i: int| joined(gs, starts[i], line_end(starts, i, end)))
}

/// Where line `i` ends: at the next start, or at `end` for the last line.
pub open spec fn line_end(starts: Seq<int>, i: int, end: int) -> int {
    if i + 1 < starts.len() {
        starts[i + 1]
    } else {
        end
    }
}

/// The lines cut from `gs` at `starts` (each line runs to the next start, the last to the end).
pub open spec fn cut_lines(gs: Seq<Seq<char>>, starts: Seq<int>) -> Seq<Seq<char>> {
    cut_between(gs, starts, gs.len() as int)
}

/// The sum of the widths from `a` up to `b`.
pub open spec fn width_sum(ws: Seq<int>, a: int, b: int) -> int
    decreases b - a,
{
    if b <= a {
        0
    } else {
        width_sum(ws, a, b - 1) + ws[b - 1]
    }
}

/// Appends one grapheme to a line being built.
proof fn lemma_joined_push(gs: Seq<Seq<char>>, a: int, b: int)
    requires
        0 <= a <= b < gs.len(),
    ensures
        joined(gs, a, b + 1) == joined(gs, a, b) + gs[b],
{
    assert(gs.subrange(a, b + 1).drop_last() =~= gs.subrange(a, b));
}

/// Wraps a file name to `width` columns (at least one) without splitting a grapheme: a
/// grapheme that does not fit on a line that has something starts the next line.
pub fn wrap_name(name: &str, width: usize) -> (res: Vec<String>)
    ensures
        ({
            let gs = grapheme_split(name@);
            let w = if width == 0 {
                1
            } else {
                width as int
            };
            res@.map_values(|l: String| l@) == cut_lines(gs, name_starts(widths_of(gs), w))
        }),
{
    let gs = graphemes(name);
    let ghost g = grapheme_split(name@);
    let ghost ws = widths_of(g);
    let w: u128 = if width == 0 {
        1
    } else {
        width as u128
    };
    let mut lines: Vec<String> = Vec::new();
    let mut line = String::new();
    let mut used: u128 = 0;
    let mut start: usize = 0;
    let ghost mut starts: Seq<int> = seq![0int];
    let n = gs.len();
    assert(g.subrange(0, 0) =~= Seq::<Seq<char>>::empty());
    for k in 0..n
        invariant
            n == gs@.len() == g.len(),
            g == gs@.map_values(|s: String| s@),
            ws == widths_of(g),
            w == (if width == 0 {
                1
            } else {
                width as int
            }),
            start <= k,
            used <= k * 0xffff_ffff_ffff_ffffu128,
            used == width_sum(ws, start as int, k as int),
            starts.len() == lines@.len() + 1,
            starts.last() == start,
            starts + name_breaks(ws, w as int, k as int, start as int, used as int) == name_starts(ws, w as int),
            forall|i: int| 0 <= i < starts.len() ==> 0 <= #[trigger] starts[i] <= start,
            forall|i: int| 0 <= i < starts.len() - 1 ==> #[trigger] starts[i] < starts[i + 1],
            forall|i: int|
                0 <= i < lines@.len() ==> (#[trigger] lines@[i])@ == joined(g, starts[i], starts[i + 1]),
            line@ == joined(g, start as int, k as int),
    {
        let part = gs[k].as_str();
        let pw = str_width(part) as u128;
        assert(pw as int == ws[k as int]);
        proof {
            assert(k * 0xffff_ffff_ffff_ffffu128 + 0xffff_ffff_ffff_ffffu128 == (k + 1) * 0xffff_ffff_ffff_ffffu128) by (nonlinear_arith);
            assert((k + 1) * 0xffff_ffff_ffff_ffffu128 <= 0x1_0000_0000_0000_0000 * 0xffff_ffff_ffff_ffffu128) by (nonlinear_arith)
                requires k + 1 <= 0x1_0000_0000_0000_0000;
        }
        if k > start && used + pw > w {
            let ghost before = starts;
            lines.push(line);
            line = String::new();
            used = 0;
            start = k;
            proof {
                starts = starts.push(k as int);
                assert(starts + name_breaks(ws, w as int, k as int, k as int, 0) =~= before + (seq![k as int] + name_breaks(ws, w as int, k + 1, k as int, ws[k as int])));
                assert(g.subrange(k as int, k as int) =~= Seq::<Seq<char>>::empty());
            }
        }
        proof {
            lemma_joined_push(g, start as int, k as int);
            assert(width_sum(ws, start as int, k + 1) == width_sum(ws, start as int, k as int)
                + ws[k as int]);
        }
        push_str(&mut line, part);
        used = used + pw;
    }
    let ghost before = lines@;
    lines.push(line);
    proof {
        let st = name_starts(ws, w as int);
        assert(starts =~= st);
        assert(lines@.map_values(|l: String| l@) =~= cut_lines(g, st));
    }
    lines
}


/// A line fits in `w` columns, or holds at most one piece.
pub open spec fn line_ok(ws: Seq<int>, w: int, a: int, e: int) -> bool {
    width_sum(ws, a, e) <= w || e - a <= 1
}

/// Every line cut at `starts` (the last running to `end`) fits or holds one piece.
pub open spec fn lines_fit(ws: Seq<int>, w: int, starts: Seq<int>, end: int) -> bool {
    forall|i: int| 0 <= i < starts.len() ==> #[trigger] line_ok(ws, w, starts[i], line_end(starts, i, end))
}

/// Joining splits at any point between.
pub proof fn lemma_concat_add(x: Seq<Seq<char>>, y: Seq<Seq<char>>)
    ensures
        concat(x + y) == concat(x) + concat(y),
    decreases y.len(),
{
    if y.len() == 0 {
        assert(x + y =~= x);
        assert(concat(x) + Seq::<char>::empty() =~= concat(x));
    } else {
        lemma_concat_add(x, y.drop_last());
        assert((x + y).drop_last() =~= x + y.drop_last());
        assert((x + y).last() == y.last());
        assert(concat(x) + concat(y.drop_last()) + y.last() =~= concat(x) + (concat(y.drop_last())
            + y.last()));
    }
}

/// Sorted starts stay sorted at any distance.
proof fn lemma_starts_sorted(starts: Seq<int>, i: int, j: int)
    requires
        0 <= i <= j < starts.len(),
        forall|k: int| 0 <= k < starts.len() - 1 ==> #[trigger] starts[k] <= starts[k + 1],
    ensures
        starts[i] <= starts[j],
    decreases j - i,
{
    if i < j {
        lemma_starts_sorted(starts, i, j - 1);
        assert(starts[j - 1] <= starts[j]);
    }
}

/// Lines cut at increasing starts join back into what they were cut from.
#[verifier::rlimit(40)]
pub proof fn lemma_cut_joins(gs: Seq<Seq<char>>, starts: Seq<int>, end: int)
    requires
        starts.len() > 0,
        0 <= starts[0],
        forall|i: int| 0 <= i < starts.len() - 1 ==> #[trigger] starts[i] <= starts[i + 1],
        starts.last() <= end <= gs.len(),
    ensures
        concat(cut_between(gs, starts, end)) == joined(gs, starts[0], end),
    decreases starts.len(),
{
    let c = cut_between(gs, starts, end);
    let n = starts.len();
    assert(c.last() == joined(gs, starts[n - 1], end));
    assert(concat(c) == concat(c.drop_last()) + c.last());
    if n == 1 {
        assert(c.drop_last() =~= Seq::<Seq<char>>::empty());
        assert(Seq::<char>::empty() + c.last() =~= c.last());
    } else {
        let m = starts.last();
        let s2 = starts.drop_last();
        assert forall|i: int| 0 <= i < s2.len() - 1 implies #[trigger] s2[i] <= s2[i + 1] by {
            assert(s2[i] == starts[i] && s2[i + 1] == starts[i + 1]);
        }
        lemma_starts_sorted(starts, 0, n - 1);
        lemma_starts_sorted(starts, n - 2, n - 1);
        lemma_cut_joins(gs, s2, m);
        assert forall|i: int| 0 <= i < n - 1 implies c.drop_last()[i] == #[trigger] cut_between(
            gs,
            s2,
            m,
        )[i] by {
            assert(line_end(starts, i, end) == line_end(s2, i, m));
        }
        assert(c.drop_last() =~= cut_between(gs, s2, m));
        assert(gs.subrange(starts[0], end) =~= gs.subrange(starts[0], m) + gs.subrange(m, end));
        lemma_concat_add(gs.subrange(starts[0], m), gs.subrange(m, end));
    }
}

/// What laying out pieces from `k` gives: breaks after `start`, increasing, within the
/// pieces, and every line (the current one included) fits or holds one piece.
pub proof fn lemma_name_breaks(ws: Seq<int>, w: int, k: int, start: int, used: int)
    requires
        0 <= start <= k <= ws.len(),
        used == width_sum(ws, start, k),
        used <= w || k - start <= 1,
    ensures
        ({
            let b = name_breaks(ws, w, k, start, used);
            let st = seq![start] + b;
            &&& forall|i: int| 0 <= i < b.len() ==> k <= #[trigger] b[i] < ws.len()
            &&& forall|i: int| 0 <= i < st.len() - 1 ==> #[trigger] st[i] < st[i + 1]
            &&& lines_fit(ws, w, st, ws.len() as int)
        }),
    decreases ws.len() - k,
{
    let b = name_breaks(ws, w, k, start, used);
    let st = seq![start] + b;
    if k == ws.len() {
        assert(b =~= Seq::<int>::empty());
        assert(line_ok(ws, w, st[0], line_end(st, 0, ws.len() as int)));
    } else if k > start && used + ws[k] > w {
        assert(width_sum(ws, k, k) == 0);
        assert(width_sum(ws, k, k + 1) == ws[k]);
        lemma_name_breaks(ws, w, k + 1, k, ws[k]);
        let rest = name_breaks(ws, w, k + 1, k, ws[k]);
        assert(b == seq![k] + rest);
        let st2 = seq![k] + rest;
        assert(st =~= seq![start] + st2);
        assert forall|i: int| 0 <= i < st.len() - 1 implies #[trigger] st[i] < st[i + 1] by {
            if i > 0 {
                assert(st[i] == st2[i - 1] && st[i + 1] == st2[i]);
            }
        }
        assert forall|i: int| 0 <= i < st.len() implies #[trigger] line_ok(
            ws,
            w,
            st[i],
            line_end(st, i, ws.len() as int),
        ) by {
            if i > 0 {
                assert(st[i] == st2[i - 1]);
                assert(line_end(st, i, ws.len() as int) == line_end(st2, i - 1, ws.len() as int));
                assert(line_ok(ws, w, st2[i - 1], line_end(st2, i - 1, ws.len() as int)));
            }
        }
    } else {
        assert(width_sum(ws, start, k + 1) == used + ws[k]);
        lemma_name_breaks(ws, w, k + 1, start, used + ws[k]);
    }
}

/// Wrapped names stay complete and fit: the lines of a wrapped name join back into the
/// name, and each line fits in the width (at least one column) or holds a single grapheme.
pub proof fn law_wrapped_names_are_complete_and_fit(gs: Seq<Seq<char>>, width: nat)
    ensures
        ({
            let w = if width == 0 {
                1
            } else {
                width as int
            };
            let st = name_starts(widths_of(gs), w);
            &&& concat(cut_lines(gs, st)) == concat(gs)
            &&& lines_fit(widths_of(gs), w, st, gs.len() as int)
        }),
{
    let w = if width == 0 {
        1
    } else {
        width as int
    };
    lemma_wrapped_lines(gs, widths_of(gs), w);
}

/// Lines laid out from widths `ws` join back into the pieces and fit.
proof fn lemma_wrapped_lines(gs: Seq<Seq<char>>, ws: Seq<int>, w: int)
    requires
        ws.len() == gs.len(),
    ensures
        concat(cut_lines(gs, name_starts(ws, w))) == concat(gs),
        lines_fit(ws, w, name_starts(ws, w), gs.len() as int),
{
    let st = name_starts(ws, w);
    assert(width_sum(ws, 0, 0) == 0);
    lemma_name_breaks(ws, w, 0, 0, 0);
    assert(st.len() > 0);
    assert forall|i: int| 0 <= i < st.len() - 1 implies #[trigger] st[i] <= st[i + 1] by {}
    lemma_starts_sorted(st, 0, st.len() - 1);
    assert(st[0] == 0);
    lemma_cut_joins(gs, st, gs.len() as int);
    assert(gs.subrange(0, gs.len() as int) =~= gs);
}


/// Where the lines after the first begin when tokens (width, whether whitespace) are laid
/// out from token `k` in lines of `w` columns: a code token that would pass the width starts
/// a new line once the line holds code; whitespace never does.
pub open spec fn code_breaks(ts: Seq<(usize, bool)>, w: int, k: int, used: int, has_code: bool) -> Seq<int>
    decreases ts.len() - k,
{
    if k < 0 || k >= ts.len() {
        Seq::empty()
    } else if !ts[k].1 && has_code && used + ts[k].0 > w {
        seq![k] + code_breaks(ts, w, k + 1, ts[k].0 as int, true)
    } else {
        code_breaks(ts, w, k + 1, used + ts[k].0, has_code || !ts[k].1)
    }
}

/// The first tokens of the lines of wrapped code (one line when there is no token).
pub open spec fn code_starts(ts: Seq<(usize, bool)>, width: int) -> Seq<int> {
    let w = if width < 1 {
        1
    } else {
        width
    };
    seq![0int] + code_breaks(ts, w, 0, 0, false)
}

/// Where the lines of wrapped code begin: the index of the first token of each line, for
/// tokens given as (width, whether whitespace). Tokens are never split; see
/// [`code_breaks`] and [`law_code_lines_keep_every_token`].
pub fn code_line_starts(tokens: &Vec<(usize, bool)>, width: usize) -> (res: Vec<usize>)
    ensures
        res@.map_values(|i: usize| i as int) == code_starts(tokens@, width as int),
{
    let w: u128 = if width == 0 {
        1
    } else {
        width as u128
    };
    let ghost wi = w as int;
    let mut starts: Vec<usize> = Vec::new();
    starts.push(0);
    let mut used: u128 = 0;
    let mut has_code = false;
    let n = tokens.len();
    for k in 0..n
        invariant
            n == tokens@.len(),
            wi == w,
            w == (if width < 1 {
                1
            } else {
                width as int
            }),
            used <= k * 0xffff_ffff_ffff_ffffu128,
            starts@.map_values(|i: usize| i as int) + code_breaks(tokens@, wi, k as int, used as int, has_code)
                == code_starts(tokens@, width as int),
    {
        let (tw, ws) = tokens[k];
        proof {
            assert(k * 0xffff_ffff_ffff_ffffu128 + 0xffff_ffff_ffff_ffffu128 == (k + 1) * 0xffff_ffff_ffff_ffffu128) by (nonlinear_arith);
            assert((k + 1) * 0xffff_ffff_ffff_ffffu128 <= 0x1_0000_0000_0000_0000 * 0xffff_ffff_ffff_ffffu128) by (nonlinear_arith)
                requires k + 1 <= 0x1_0000_0000_0000_0000;
        }
        let ghost before = starts@.map_values(|i: usize| i as int);
        if !ws && has_code && used + tw as u128 > w {
            starts.push(k);
            used = tw as u128;
            has_code = true;
            assert(starts@.map_values(|i: usize| i as int) =~= before.push(k as int));
            assert(before.push(k as int) + code_breaks(tokens@, wi, k + 1, used as int, true) =~= before
                + (seq![k as int] + code_breaks(tokens@, wi, k + 1, used as int, true)));
        } else {
            used = used + tw as u128;
            has_code = has_code || !ws;
        }
    }
    assert(starts@.map_values(|i: usize| i as int) + Seq::<int>::empty() =~= starts@.map_values(
        |i: usize| i as int,
    ));
    starts
}

/// What laying out tokens from `k` gives: breaks at later tokens, increasing.
pub proof fn lemma_code_breaks(ts: Seq<(usize, bool)>, w: int, k: int, used: int, has_code: bool)
    requires
        0 <= k <= ts.len(),
    ensures
        ({
            let b = code_breaks(ts, w, k, used, has_code);
            &&& forall|i: int| 0 <= i < b.len() ==> k <= #[trigger] b[i] < ts.len()
            &&& forall|i: int| 0 <= i < b.len() - 1 ==> #[trigger] b[i] < b[i + 1]
            &&& !has_code ==> forall|i: int| 0 <= i < b.len() ==> k < #[trigger] b[i]
            &&& forall|i: int| 0 <= i < b.len() ==> !ts[#[trigger] b[i]].1
        }),
    decreases ts.len() - k,
{
    if k < ts.len() {
        if !ts[k].1 && has_code && used + ts[k].0 > w {
            lemma_code_breaks(ts, w, k + 1, ts[k].0 as int, true);
            let rest = code_breaks(ts, w, k + 1, ts[k].0 as int, true);
            let b = seq![k] + rest;
            assert(b == code_breaks(ts, w, k, used, has_code));
            assert forall|i: int| 0 <= i < b.len() implies k <= #[trigger] b[i] < ts.len() by {
                if i > 0 {
                    assert(b[i] == rest[i - 1]);
                }
            }
            assert forall|i: int| 0 <= i < b.len() - 1 implies #[trigger] b[i] < b[i + 1] by {
                if i > 0 {
                    assert(b[i] == rest[i - 1] && b[i + 1] == rest[i]);
                }
            }
            assert forall|i: int| 0 <= i < b.len() implies !ts[#[trigger] b[i]].1 by {
                if i > 0 {
                    assert(b[i] == rest[i - 1]);
                }
            }
        } else {
            lemma_code_breaks(ts, w, k + 1, used + ts[k].0, has_code || !ts[k].1);
            assert(code_breaks(ts, w, k, used, has_code) == code_breaks(
                ts,
                w,
                k + 1,
                used + ts[k].0,
                has_code || !ts[k].1,
            ));
        }
    } else {
        assert(code_breaks(ts, w, k, used, has_code) =~= Seq::<int>::empty());
    }
}

/// Wrapping code keeps every token, in order: the lines begin at the first token, at
/// increasing tokens, each within the tokens, so the lines hold each token once and none is
/// split; a line after the first begins with code, never with whitespace.
pub proof fn law_code_lines_keep_every_token(ts: Seq<(usize, bool)>, width: int)
    ensures
        ({
            let st = code_starts(ts, width);
            &&& st.len() >= 1 && st[0] == 0
            &&& forall|i: int| 0 <= i < st.len() - 1 ==> #[trigger] st[i] < st[i + 1]
            &&& forall|i: int| 1 <= i < st.len() ==> #[trigger] st[i] < ts.len()
            &&& forall|i: int| 1 <= i < st.len() ==> !ts[#[trigger] st[i]].1
        }),
{
    let w = if width < 1 {
        1
    } else {
        width
    };
    lemma_code_breaks(ts, w, 0, 0, false);
    let b = code_breaks(ts, w, 0, 0, false);
    let st = code_starts(ts, width);
    assert forall|i: int| 0 <= i < st.len() - 1 implies #[trigger] st[i] < st[i + 1] by {
        if i > 0 {
            assert(st[i] == b[i - 1] && st[i + 1] == b[i]);
        } else if b.len() > 0 {
            assert(st[1] == b[0]);
        }
    }
    assert forall|i: int| 1 <= i < st.len() implies #[trigger] st[i] < ts.len() by {
        assert(st[i] == b[i - 1]);
    }
    assert forall|i: int| 1 <= i < st.len() implies !ts[#[trigger] st[i]].1 by {
        assert(st[i] == b[i - 1]);
    }
}

/// The columns that tokens `a..b` take.
pub open spec fn columns(ts: Seq<(usize, bool)>, a: int, b: int) -> int
    decreases b - a,
{
    if a >= b {
        0
    } else {
        columns(ts, a, b - 1) + ts[b - 1].0
    }
}

/// Tokens take no fewer columns when the range grows.
proof fn lemma_columns_grow(ts: Seq<(usize, bool)>, a: int, c: int, d: int)
    requires
        a <= c <= d <= ts.len(),
    ensures
        columns(ts, a, c) <= columns(ts, a, d),
    decreases d - c,
{
    if c < d {
        lemma_columns_grow(ts, a, c, d - 1);
    }
}

/// Laying out tokens from `k`, on a line begun at `a` that has used `used` columns: each break
/// comes where the next token would pass the width, both the first (on the line from `a`) and
/// each later one (on the line from the break before it).
proof fn lemma_breaks_needed(ts: Seq<(usize, bool)>, w: int, a: int, k: int, used: int, has_code: bool)
    requires
        0 <= a <= k <= ts.len(),
        used == columns(ts, a, k),
        has_code == code_in(ts, a, k),
    ensures
        ({
            let b = code_breaks(ts, w, k, used, has_code);
            &&& b.len() > 0 ==> columns(ts, a, b[0]) + ts[b[0]].0 > w && code_in(ts, a, b[0])
            &&& forall|i: int| 0 <= i < b.len() - 1 ==> columns(ts, #[trigger] b[i], b[i + 1]) + ts[b[i + 1]].0 > w
                && code_in(ts, b[i], b[i + 1])
        }),
    decreases ts.len() - k,
{
    if k < ts.len() {
        assert(code_in(ts, a, k + 1) == (has_code || !ts[k].1)) by {
            if !ts[k].1 {
                assert(a <= k < k + 1 && !ts[k].1);
            }
            if code_in(ts, a, k + 1) && !(!ts[k].1) {
                let j = choose|j: int| a <= j < k + 1 && !(#[trigger] ts[j]).1;
                assert(a <= j < k);
            }
        }
        if !ts[k].1 && has_code && used + ts[k].0 > w {
            assert(columns(ts, k, k) == 0);
            assert(columns(ts, k, k + 1) == ts[k].0);
            assert(code_in(ts, k, k + 1)) by {
                assert(k <= k < k + 1 && !ts[k].1);
            }
            lemma_breaks_needed(ts, w, k, k + 1, ts[k].0 as int, true);
            let rest = code_breaks(ts, w, k + 1, ts[k].0 as int, true);
            let b = seq![k] + rest;
            assert(b == code_breaks(ts, w, k, used, has_code));
            assert forall|i: int| 0 <= i < b.len() - 1 implies columns(ts, #[trigger] b[i], b[i + 1]) + ts[b[i
                + 1]].0 > w && code_in(ts, b[i], b[i + 1]) by {
                if i == 0 {
                    assert(b[0] == k && b[1] == rest[0]);
                } else {
                    assert(b[i] == rest[i - 1] && b[i + 1] == rest[i]);
                }
            }
        } else {
            assert(columns(ts, a, k + 1) == used + ts[k].0);
            lemma_breaks_needed(ts, w, a, k + 1, used + ts[k].0, has_code || !ts[k].1);
            assert(code_breaks(ts, w, k, used, has_code) == code_breaks(
                ts,
                w,
                k + 1,
                used + ts[k].0,
                has_code || !ts[k].1,
            ));
        }
    }
}

/// Wrapping code breaks a line only where it must: each line after the first begins with a
/// token that would have passed the width (at least one column) at the end of the line before
/// it, and only once that line holds code, so no line is whitespace alone before a break.
/// So code whose tokens fit in the width stays on one line.
pub proof fn law_code_breaks_only_when_the_width_is_passed(ts: Seq<(usize, bool)>, width: int)
    ensures
        ({
            let w = if width < 1 {
                1
            } else {
                width
            };
            let st = code_starts(ts, width);
            &&& forall|i: int|
                1 <= i < st.len() ==> columns(ts, st[i - 1], #[trigger] st[i]) + ts[st[i]].0 > w
            &&& forall|i: int| 1 <= i < st.len() ==> code_in(ts, st[i - 1], #[trigger] st[i])
            &&& columns(ts, 0, ts.len() as int) <= w ==> st == seq![0int]
        }),
{
    let w = if width < 1 {
        1
    } else {
        width
    };
    lemma_breaks_needed(ts, w, 0, 0, 0, false);
    lemma_code_breaks(ts, w, 0, 0, false);
    let b = code_breaks(ts, w, 0, 0, false);
    let st = code_starts(ts, width);
    assert(st == seq![0int] + b);
    assert(!code_in(ts, 0, 0));
    assert forall|i: int| 1 <= i < st.len() implies columns(ts, st[i - 1], #[trigger] st[i]) + ts[st[i]].0 > w
        && code_in(ts, st[i - 1], st[i]) by {
        if i == 1 {
            assert(st[0] == 0 && st[1] == b[0]);
        } else {
            assert(st[i - 1] == b[i - 2] && st[i] == b[i - 1]);
        }
    }
    if columns(ts, 0, ts.len() as int) <= w && b.len() > 0 {
        lemma_columns_grow(ts, 0, b[0] + 1, ts.len() as int);
        assert(columns(ts, 0, b[0] + 1) == columns(ts, 0, b[0]) + ts[b[0]].0);
    }
    if b.len() == 0 {
        assert(st =~= seq![0int]);
    }
}

/// Some token in `a..b` is code (not whitespace).
pub open spec fn code_in(ts: Seq<(usize, bool)>, a: int, b: int) -> bool {
    exists|j: int| a <= j < b && !(#[trigger] ts[j]).1
}

/// On the line of tokens `a..e`, every code token after the line's first code token ends
/// within `w` columns: only a line's first code token (with whitespace) passes the width.
pub open spec fn code_fits(ts: Seq<(usize, bool)>, w: int, a: int, e: int) -> bool {
    forall|c: int| a <= c < e && !ts[c].1 && #[trigger] code_in(ts, a, c) ==> columns(ts, a, c + 1) <= w
}

/// Each line, from `a` and then from each of the `breaks`, fits (see [`code_fits`]).
pub open spec fn lines_fit_code(ts: Seq<(usize, bool)>, w: int, a: int, breaks: Seq<int>) -> bool
    decreases breaks.len(),
{
    if breaks.len() == 0 {
        code_fits(ts, w, a, ts.len() as int)
    } else {
        code_fits(ts, w, a, breaks[0]) && lines_fit_code(ts, w, breaks[0], breaks.drop_first())
    }
}

proof fn lemma_breaks_fit(ts: Seq<(usize, bool)>, w: int, a: int, k: int, used: int, has_code: bool)
    requires
        0 <= a <= k <= ts.len(),
        used == columns(ts, a, k),
        has_code == code_in(ts, a, k),
        code_fits(ts, w, a, k),
    ensures
        lines_fit_code(ts, w, a, code_breaks(ts, w, k, used, has_code)),
    decreases ts.len() - k,
{
    if k < ts.len() {
        assert(code_in(ts, a, k + 1) == (has_code || !ts[k].1)) by {
            if !ts[k].1 {
                assert(a <= k < k + 1 && !ts[k].1);
            }
            if code_in(ts, a, k + 1) && !(!ts[k].1) {
                let j = choose|j: int| a <= j < k + 1 && !(#[trigger] ts[j]).1;
                assert(a <= j < k);
            }
        }
        if !ts[k].1 && has_code && used + ts[k].0 > w {
            assert(columns(ts, k, k) == 0);
            assert(columns(ts, k, k + 1) == ts[k].0);
            assert(code_in(ts, k, k + 1)) by {
                assert(k <= k < k + 1 && !ts[k].1);
            }
            assert(code_fits(ts, w, k, k + 1)) by {
                assert forall|c: int| k <= c < k + 1 && !ts[c].1 && #[trigger] code_in(ts, k, c) implies columns(
                    ts,
                    k,
                    c + 1,
                ) <= w by {
                    assert(c == k);
                    assert(!code_in(ts, k, k));
                }
            }
            lemma_breaks_fit(ts, w, k, k + 1, ts[k].0 as int, true);
            let rest = code_breaks(ts, w, k + 1, ts[k].0 as int, true);
            assert((seq![k] + rest).drop_first() =~= rest);
        } else {
            assert(code_fits(ts, w, a, k + 1)) by {
                assert forall|c: int| a <= c < k + 1 && !ts[c].1 && #[trigger] code_in(ts, a, c) implies columns(
                    ts,
                    a,
                    c + 1,
                ) <= w by {
                    if c < k {
                    } else {
                        assert(c == k);
                    }
                }
            }
            lemma_breaks_fit(ts, w, a, k + 1, used + ts[k].0, has_code || !ts[k].1);
        }
    }
}

/// Wrapping code fills each line up to the width: on every line, each code token after the
/// line's first ends within the width, so a line passes the width only through its first
/// code token or through whitespace after its code.
pub proof fn law_wrapped_code_fits_the_width(ts: Seq<(usize, bool)>, width: int)
    ensures
        lines_fit_code(
            ts,
            if width < 1 {
                1
            } else {
                width
            },
            0,
            code_starts(ts, width).drop_first(),
        ),
{
    let w = if width < 1 {
        1
    } else {
        width
    };
    assert(!code_in(ts, 0, 0));
    lemma_breaks_fit(ts, w, 0, 0, 0, false);
    assert(code_starts(ts, width).drop_first() =~= code_breaks(ts, w, 0, 0, false));
}

/// How many spaces a line of code starts with.
pub open spec fn leading_spaces(s: Seq<char>) -> int
    decreases s.len(),
{
    if s.len() > 0 && s[0] == ' ' {
        1 + leading_spaces(s.drop_first())
    } else {
        0
    }
}

/// The indentation of a line of code: how many spaces it starts with.
pub fn code_indent(text: &str) -> (res: usize)
    ensures
        res == leading_spaces(text@),
{
    let cs = chars_of(text);
    let mut i: usize = 0;
    assert(cs@.skip(0) =~= cs@);
    while i < cs.len() && cs[i] == ' '
        invariant
            i <= cs.len(),
            cs@ == text@,
            leading_spaces(text@) == i + leading_spaces(cs@.skip(i as int)),
        decreases cs.len() - i,
    {
        assert(cs@.skip(i as int).drop_first() =~= cs@.skip(i + 1));
        i += 1;
    }
    i
}

} // verus!
