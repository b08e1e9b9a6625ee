//! Character-level text helpers shared by the diff, journal and todo modules.
use vstd::prelude::*;

verus! {

/// The Unicode `White_Space` property, which `char::is_whitespace` tests.
pub open spec fn is_ws(c: char) -> bool {
    let u = c as u32;
    ||| 0x09 <= u <= 0x0d
    ||| u == 0x20
    ||| u == 0x85
    ||| u == 0xa0
    ||| u == 0x1680
    ||| 0x2000 <= u <= 0x200a
    ||| u == 0x2028
    ||| u == 0x2029
    ||| u == 0x202f
    ||| u == 0x205f
    ||| u == 0x3000
}

/// Executable test of the `White_Space` property.
pub fn is_whitespace(c: char) -> (res: bool)
    ensures
        res == is_ws(c),
{
    let u = c as u32;
    (0x09 <= u && u <= 0x0d) || u == 0x20 || u == 0x85 || u == 0xa0 || u == 0x1680 || (0x2000
        <= u && u <= 0x200a) || u == 0x2028 || u == 0x2029 || u == 0x202f || u == 0x205f || u
        == 0x3000
}

/// The characters of `s`, in order.
pub fn chars_of(s: &str) -> (res: Vec<char>)
    ensures
        res@ == s@,
{
    let mut res: Vec<char> = Vec::new();
    for c in it: s.chars()
        invariant
            res@ == it.seq().take(it.index() as int),
            it.seq() == s@,
    {
        res.push(c);
    }
    res
}

/// Appends one character to a string (`String::push`).
#[verifier::external_body]
pub(crate) fn push_char(s: &mut String, c: char)
    ensures
        final(s)@ == old(s)@.push(c),
{
    s.push(c);
}

/// Appends all characters of `v` to `s`.
pub fn push_chars(s: &mut String, v: &Vec<char>)
    ensures
        final(s)@ == old(s)@ + v@,
{
    let ghost start = s@;
    for i in 0..v.len()
        invariant
            s@ == start + v@.take(i as int),
    {
        push_char(s, v[i]);
        assert(start + v@.take(i as int).push(v@[i as int]) =~= start + v@.take(i + 1));
    }
    assert(v@.take(v.len() as int) =~= v@);
}

/// The string made of the characters of `v`.
pub fn string_from_chars(v: &Vec<char>) -> (res: String)
    ensures
        res@ == v@,
{
    let mut res = String::new();
    push_chars(&mut res, v);
    assert(Seq::<char>::empty() + v@ =~= v@);
    res
}

/// Appends a string slice to `s`.
pub fn push_str(s: &mut String, t: &str)
    ensures
        final(s)@ == old(s)@ + t@,
{
    s.append(t);
}

/// Whether `w` begins with `p`.
pub open spec fn starts_with<A>(w: Seq<A>, p: Seq<A>) -> bool {
    p.len() <= w.len() && w.subrange(0, p.len() as int) == p
}

/// Whether `w` ends with `p`.
pub open spec fn ends_with<A>(w: Seq<A>, p: Seq<A>) -> bool {
    p.len() <= w.len() && w.subrange(w.len() - p.len(), w.len() as int) == p
}

/// Whether `p` occurs in `w` at position `i`.
pub open spec fn occurs_at<A>(w: Seq<A>, p: Seq<A>, i: int) -> bool {
    0 <= i && i + p.len() <= w.len() && w.subrange(i, i + p.len()) == p
}

/// Whether `p` occurs anywhere in `w`.
pub open spec fn contains_seq<A>(w: Seq<A>, p: Seq<A>) -> bool {
    exists|i: int| occurs_at(w, p, i)
}

/// Whether `p` occurs in `w` at position `i` (executable).
pub fn occurs_at_exec(w: &Vec<char>, p: &Vec<char>, i: usize) -> (res: bool)
    ensures
        res == occurs_at(w@, p@, i as int),
{
    if i > w.len() || p.len() > w.len() - i {
        return false;
    }
    let mut k: usize = 0;
    while k < p.len()
        invariant
            i + p.len() <= w.len(),
            k <= p.len(),
            forall|m: int| 0 <= m < k ==> w@[i + m] == p@[m],
        decreases p.len() - k,
    {
        if w[i + k] != p[k] {
            assert(w@.subrange(i as int, i + p.len())[k as int] != p@[k as int]);
            return false;
        }
        k += 1;
    }
    assert(w@.subrange(i as int, i + p.len()) =~= p@);
    true
}

/// Whether `w` begins with `p` (executable).
pub fn starts_with_exec(w: &Vec<char>, p: &Vec<char>) -> (res: bool)
    ensures
        res == starts_with(w@, p@),
{
    occurs_at_exec(w, p, 0)
}

/// Whether `w` ends with `p` (executable).
pub fn ends_with_exec(w: &Vec<char>, p: &Vec<char>) -> (res: bool)
    ensures
        res == ends_with(w@, p@),
{
    if p.len() > w.len() {
        return false;
    }
    occurs_at_exec(w, p, w.len() - p.len())
}

/// Whether `p` occurs anywhere in `w` (executable).
pub fn contains_exec(w: &Vec<char>, p: &Vec<char>) -> (res: bool)
    ensures
        res == contains_seq(w@, p@),
{
    if p.len() > w.len() {
        assert forall|i: int| !occurs_at(w@, p@, i) by {}
        return false;
    }
    if p.len() == 0 {
        assert(w@.subrange(0, 0) =~= p@);
        assert(occurs_at(w@, p@, 0));
        return true;
    }
    let last = w.len() - p.len();
    let mut i: usize = 0;
    while i <= last
        invariant
            last == w.len() - p.len(),
            p.len() >= 1,
            forall|j: int| 0 <= j < i ==> !occurs_at(w@, p@, j),
        decreases last + 1 - i,
    {
        if occurs_at_exec(w, p, i) {
            return true;
        }
        i += 1;
    }
    assert forall|j: int| !occurs_at(w@, p@, j) by {
        if 0 <= j < i {
        }
    }
    false
}

/// The part of `s` from index `i` on.
pub fn tail_of(s: &Vec<char>, i: usize) -> (res: Vec<char>)
    requires
        i <= s.len(),
    ensures
        res@ == s@.subrange(i as int, s.len() as int),
{
    slice_of(s, i, s.len())
}

/// The part of `s` between `i` and `j`.
pub fn slice_of<A: Copy>(s: &Vec<A>, i: usize, j: usize) -> (res: Vec<A>)
    requires
        i <= j <= s.len(),
    ensures
        res@ == s@.subrange(i as int, j as int),
{
    let mut res: Vec<A> = Vec::new();
    let mut k = i;
    while k < j
        invariant
            i <= k <= j <= s.len(),
            res@ == s@.subrange(i as int, k as int),
        decreases j - k,
    {
        res.push(s[k]);
        assert(s@.subrange(i as int, k as int).push(s@[k as int]) =~= s@.subrange(
            i as int,
            k + 1,
        ));
        k += 1;
    }
    res
}

// ---------------------------------------------------------------------------
// Lines
/// The lines of `s` as `str::lines` yields them: split at `'\n'`, a `'\r'` right before the
/// `'\n'` dropped, and no empty line after a final `'\n'`.
pub open spec fn lines_of(s: Seq<char>) -> Seq<Seq<char>>
    decreases s.len(),
{
    if s.len() == 0 {
        Seq::empty()
    } else {
        let k = first_index_of(s, '\n');
        proof {
            lemma_first_index_of(s, '\n');
        }
        if k < 0 {
            seq![s]
        } else {
            let line = s.subrange(0, k);
            let line = if line.len() > 0 && line.last() == '\r' {
                line.drop_last()
            } else {
                line
            };
            seq![line] + lines_of(s.subrange(k + 1, s.len() as int))
        }
    }
}

/// The first index of `c` in `s`, or -1.
pub open spec fn first_index_of<A>(s: Seq<A>, c: A) -> int
    decreases s.len(),
{
    if s.len() == 0 {
        -1
    } else if s[0] == c {
        0
    } else {
        let r = first_index_of(s.drop_first(), c);
        if r < 0 {
            -1
        } else {
            r + 1
        }
    }
}

pub proof fn lemma_first_index_of<A>(s: Seq<A>, c: A)
    ensures
        -1 <= first_index_of(s, c) < s.len(),
        first_index_of(s, c) >= 0 ==> s[first_index_of(s, c)] == c,
        forall|j: int|
            0 <= j < s.len() && (first_index_of(s, c) < 0 || j < first_index_of(s, c)) ==> s[j]
                != c,
    decreases s.len(),
{
    if s.len() > 0 && s[0] != c {
        lemma_first_index_of(s.drop_first(), c);
        assert forall|j: int|
            0 <= j < s.len() && (first_index_of(s, c) < 0 || j < first_index_of(s, c)) implies s[j]
            != c by {
            if j > 0 {
                assert(s[j] == s.drop_first()[j - 1]);
            }
        }
    }
}

/// The first index at or after `from` where `v` holds `c`, or `v.len()`.
pub fn find_from(v: &Vec<char>, from: usize, c: char) -> (res: usize)
    requires
        from <= v.len(),
    ensures
        from <= res <= v.len(),
        res < v.len() ==> v@[res as int] == c,
        forall|j: int| from <= j < res ==> v@[j] != c,
{
    let mut i = from;
    while i < v.len()
        invariant
            from <= i <= v.len(),
            forall|j: int| from <= j < i ==> v@[j] != c,
        decreases v.len() - i,
    {
        if v[i] == c {
            return i;
        }
        i += 1;
    }
    i
}

pub proof fn lemma_first_index_shift<A>(s: Seq<A>, from: int, c: A, k: int)
    requires
        0 <= from <= k <= s.len(),
        k < s.len() ==> s[k] == c,
        forall|j: int| from <= j < k ==> s[j] != c,
    ensures
        first_index_of(s.subrange(from, s.len() as int), c) == (if k < s.len() {
            k - from
        } else {
            -1
        }),
    decreases k - from,
{
    let t = s.subrange(from, s.len() as int);
    if from < s.len() {
        if from == k {
        } else {
            lemma_first_index_shift(s, from + 1, c, k);
            assert(t.drop_first() =~= s.subrange(from + 1, s.len() as int));
        }
    }
}

/// The lines of `s` (see [`lines_of`]).
pub fn lines(s: &Vec<char>) -> (res: Vec<Vec<char>>)
    ensures
        res@.len() == lines_of(s@).len(),
        forall|i: int| 0 <= i < res@.len() ==> #[trigger] res@[i]@ == lines_of(s@)[i],
{
    let mut res: Vec<Vec<char>> = Vec::new();
    let mut start: usize = 0;
    assert(s@.subrange(0, s.len() as int) =~= s@);
    while start < s.len()
        invariant
            start <= s.len(),
            res@.len() + lines_of(s@.subrange(start as int, s.len() as int)).len() == lines_of(
                s@,
            ).len(),
            forall|i: int| 0 <= i < res@.len() ==> #[trigger] res@[i]@ == lines_of(s@)[i],
            forall|i: int|
                0 <= i < lines_of(s@.subrange(start as int, s.len() as int)).len() ==> lines_of(
                    s@.subrange(start as int, s.len() as int),
                )[i] == lines_of(s@)[res@.len() + i],
        decreases s.len() - start,
    {
        let ghost rest = s@.subrange(start as int, s.len() as int);
        let k = find_from(s, start, '\n');
        proof {
            lemma_first_index_shift(s@, start as int, '\n', k as int);
        }
        let mut end = k;
        if end > start && s[end - 1] == '\r' && k < s.len() {
            end = end - 1;
        }
        let line = slice_of(s, start, end);
        proof {
            if k < s.len() {
                assert(rest.subrange(0, k - start) =~= s@.subrange(start as int, k as int));
                assert(rest.subrange(k - start + 1, rest.len() as int) =~= s@.subrange(
                    k + 1,
                    s.len() as int,
                ));
                if end < k {
                    assert(s@.subrange(start as int, k as int).drop_last() =~= s@.subrange(
                        start as int,
                        end as int,
                    ));
                }
            } else {
                assert(rest =~= s@.subrange(start as int, end as int));
            }
        }
        res.push(line);
        start = if k < s.len() {
            k + 1
        } else {
            s.len()
        };
        proof {
            let nrest = s@.subrange(start as int, s.len() as int);
            if k >= s.len() {
                assert(nrest.len() == 0);
            }
            assert(lines_of(rest)[0] == line@);
            assert forall|i: int| 0 <= i < lines_of(nrest).len() implies lines_of(nrest)[i]
                == lines_of(s@)[res@.len() + i] by {
                assert(lines_of(nrest)[i] == lines_of(rest)[i + 1]);
            }
            assert forall|i: int| 0 <= i < res@.len() implies #[trigger] res@[i]@ == lines_of(
                s@,
            )[i] by {
                if i == res@.len() - 1 {
                    assert(lines_of(rest)[0] == lines_of(s@)[(res@.len() - 1) + 0]);
                }
            }
        }
    }
    res
}

/// The lines of `s` as `str::split_inclusive('\n')` yields them: each keeps its `'\n'`, and
/// no empty line follows a final `'\n'`.
pub open spec fn inclusive_lines_of(s: Seq<char>) -> Seq<Seq<char>>
    decreases s.len(),
{
    if s.len() == 0 {
        Seq::empty()
    } else {
        let k = first_index_of(s, '\n');
        proof {
            lemma_first_index_of(s, '\n');
        }
        if k < 0 {
            seq![s]
        } else {
            seq![s.subrange(0, k + 1)] + inclusive_lines_of(s.subrange(k + 1, s.len() as int))
        }
    }
}

/// The lines of `s`, each with its line break (see [`inclusive_lines_of`]).
pub fn lines_inclusive(s: &Vec<char>) -> (res: Vec<Vec<char>>)
    ensures
        res@.len() == inclusive_lines_of(s@).len(),
        forall|i: int| 0 <= i < res@.len() ==> #[trigger] res@[i]@ == inclusive_lines_of(s@)[i],
{
    let mut res: Vec<Vec<char>> = Vec::new();
    let mut start: usize = 0;
    assert(s@.subrange(0, s.len() as int) =~= s@);
    while start < s.len()
        invariant
            start <= s.len(),
            res@.len() + inclusive_lines_of(s@.subrange(start as int, s.len() as int)).len()
                == inclusive_lines_of(s@).len(),
            forall|i: int| 0 <= i < res@.len() ==> #[trigger] res@[i]@ == inclusive_lines_of(s@)[i],
            forall|i: int|
                0 <= i < inclusive_lines_of(s@.subrange(start as int, s.len() as int)).len()
                    ==> inclusive_lines_of(s@.subrange(start as int, s.len() as int))[i]
                    == inclusive_lines_of(s@)[res@.len() + i],
        decreases s.len() - start,
    {
        let ghost rest = s@.subrange(start as int, s.len() as int);
        let k = find_from(s, start, '\n');
        proof {
            lemma_first_index_shift(s@, start as int, '\n', k as int);
        }
        let end = if k < s.len() {
            k + 1
        } else {
            k
        };
        let line = slice_of(s, start, end);
        proof {
            if k < s.len() {
                assert(rest.subrange(0, k - start + 1) =~= s@.subrange(start as int, end as int));
                assert(rest.subrange(k - start + 1, rest.len() as int) =~= s@.subrange(
                    end as int,
                    s.len() as int,
                ));
            } else {
                assert(rest =~= s@.subrange(start as int, end as int));
            }
        }
        res.push(line);
        start = end;
        proof {
            let nrest = s@.subrange(start as int, s.len() as int);
            if k >= s.len() {
                assert(nrest.len() == 0);
            }
            assert(inclusive_lines_of(rest)[0] == line@);
            assert forall|i: int| 0 <= i < inclusive_lines_of(nrest).len() implies inclusive_lines_of(
                nrest,
            )[i] == inclusive_lines_of(s@)[res@.len() + i] by {
                assert(inclusive_lines_of(nrest)[i] == inclusive_lines_of(rest)[i + 1]);
            }
            assert forall|i: int| 0 <= i < res@.len() implies #[trigger] res@[i]@
                == inclusive_lines_of(s@)[i] by {
                if i == res@.len() - 1 {
                    assert(inclusive_lines_of(rest)[0] == inclusive_lines_of(s@)[(res@.len() - 1)
                        + 0]);
                }
            }
        }
    }
    res
}

/// `s` without the line-break characters (`'\n'` and `'\r'`) at its end.
pub open spec fn trim_line_breaks(s: Seq<char>) -> Seq<char>
    decreases s.len(),
{
    if s.len() > 0 && (s.last() == '\n' || s.last() == '\r') {
        trim_line_breaks(s.drop_last())
    } else {
        s
    }
}

/// `text` without its trailing line-break characters, as
/// `str::trim_end_matches(['\n', '\r'])` gives it (see [`trim_line_breaks`]).
pub fn trim_line_end(text: &str) -> (res: String)
    ensures
        res@ == trim_line_breaks(text@),
{
    let cs = chars_of(text);
    let mut end = cs.len();
    assert(cs@.take(end as int) =~= cs@);
    while end > 0 && (cs[end - 1] == '\n' || cs[end - 1] == '\r')
        invariant
            end <= cs@.len(),
            trim_line_breaks(cs@.take(end as int)) == trim_line_breaks(cs@),
        decreases end,
    {
        assert(cs@.take(end as int).drop_last() =~= cs@.take(end - 1));
        end -= 1;
    }
    let kept = slice_of(&cs, 0, end);
    assert(kept@ =~= cs@.take(end as int));
    string_from_chars(&kept)
}

// ---------------------------------------------------------------------------
// Whitespace-separated fields
/// `s` with its leading whitespace removed.
pub open spec fn skip_ws(s: Seq<char>) -> Seq<char>
    decreases s.len(),
{
    if s.len() > 0 && is_ws(s[0]) {
        skip_ws(s.drop_first())
    } else {
        s
    }
}

/// The length of the run of non-whitespace characters that begins `s`.
pub open spec fn word_len(s: Seq<char>) -> int
    decreases s.len(),
{
    if s.len() > 0 && !is_ws(s[0]) {
        1 + word_len(s.drop_first())
    } else {
        0
    }
}

/// The whitespace-separated fields of `s`, as `str::split_whitespace` yields them.
pub open spec fn fields_of(s: Seq<char>) -> Seq<Seq<char>>
    decreases s.len(),
{
    let t = skip_ws(s);
    if t.len() == 0 {
        Seq::empty()
    } else {
        proof {
            lemma_skip_ws_len(s);
            lemma_word_len(t);
        }
        seq![t.subrange(0, word_len(t))] + fields_of(t.subrange(word_len(t), t.len() as int))
    }
}

pub proof fn lemma_skip_ws_len(s: Seq<char>)
    ensures
        skip_ws(s).len() <= s.len(),
        skip_ws(s) == s.subrange(s.len() - skip_ws(s).len(), s.len() as int),
        skip_ws(s).len() > 0 ==> !is_ws(skip_ws(s)[0]),
        forall|j: int| 0 <= j < s.len() - skip_ws(s).len() ==> is_ws(s[j]),
    decreases s.len(),
{
    if s.len() > 0 && is_ws(s[0]) {
        lemma_skip_ws_len(s.drop_first());
        assert forall|j: int| 0 <= j < s.len() - skip_ws(s).len() implies is_ws(s[j]) by {
            if j > 0 {
                assert(s[j] == s.drop_first()[j - 1]);
            }
        }
        assert(s.drop_first().subrange(
            s.drop_first().len() - skip_ws(s).len(),
            s.drop_first().len() as int,
        ) =~= s.subrange(s.len() - skip_ws(s).len(), s.len() as int));
    } else {
        assert(s.subrange(0, s.len() as int) =~= s);
    }
}

pub proof fn lemma_word_len(s: Seq<char>)
    ensures
        0 <= word_len(s) <= s.len(),
        s.len() > 0 && !is_ws(s[0]) ==> word_len(s) > 0,
        word_len(s) < s.len() ==> is_ws(s[word_len(s)]),
        forall|j: int| 0 <= j < word_len(s) ==> !is_ws(s[j]),
    decreases s.len(),
{
    if s.len() > 0 && !is_ws(s[0]) {
        lemma_word_len(s.drop_first());
        assert forall|j: int| 0 <= j < word_len(s) implies !is_ws(s[j]) by {
            if j > 0 {
                assert(s[j] == s.drop_first()[j - 1]);
            }
        }
    }
}

/// The index of the first non-whitespace character at or after `from`, or `v.len()`.
fn skip_ws_exec(v: &Vec<char>, from: usize) -> (res: usize)
    requires
        from <= v.len(),
    ensures
        from <= res <= v.len(),
        skip_ws(v@.subrange(from as int, v.len() as int)) == v@.subrange(res as int, v.len() as int),
    decreases v.len() - from,
{
    if from < v.len() && is_whitespace(v[from]) {
        let r = skip_ws_exec(v, from + 1);
        assert(v@.subrange(from as int, v.len() as int).drop_first() =~= v@.subrange(
            from + 1,
            v.len() as int,
        ));
        r
    } else {
        from
    }
}

/// The end of the run of non-whitespace characters that begins at `from`.
fn word_end_exec(v: &Vec<char>, from: usize) -> (res: usize)
    requires
        from <= v.len(),
    ensures
        from <= res <= v.len(),
        word_len(v@.subrange(from as int, v.len() as int)) == res - from,
    decreases v.len() - from,
{
    if from < v.len() && !is_whitespace(v[from]) {
        let r = word_end_exec(v, from + 1);
        assert(v@.subrange(from as int, v.len() as int).drop_first() =~= v@.subrange(
            from + 1,
            v.len() as int,
        ));
        r
    } else {
        from
    }
}

/// The whitespace-separated fields of `v` from index `from` on (see [`fields_of`]).
pub fn fields_from(v: &Vec<char>, from: usize) -> (res: Vec<Vec<char>>)
    requires
        from <= v.len(),
    ensures
        res@.len() == fields_of(v@.subrange(from as int, v.len() as int)).len(),
        forall|i: int|
            0 <= i < res@.len() ==> #[trigger] res@[i]@ == fields_of(
                v@.subrange(from as int, v.len() as int),
            )[i],
    decreases v.len() - from,
{
    let ghost s = v@.subrange(from as int, v.len() as int);
    let start = skip_ws_exec(v, from);
    if start == v.len() {
        return Vec::new();
    }
    let end = word_end_exec(v, start);
    let ghost t = v@.subrange(start as int, v.len() as int);
    proof {
        lemma_word_len(t);
        lemma_skip_ws_len(s);
        assert(!is_ws(t[0]));
        assert(t.subrange(word_len(t), t.len() as int) =~= v@.subrange(end as int, v.len() as int));
        assert(t.subrange(0, word_len(t)) =~= v@.subrange(start as int, end as int));
    }
    let word = slice_of(v, start, end);
    let rest = fields_from(v, end);
    let mut res: Vec<Vec<char>> = Vec::new();
    res.push(word);
    let mut i: usize = 0;
    while i < rest.len()
        invariant
            i <= rest.len(),
            res@.len() == i + 1,
            res@[0]@ == word@,
            forall|j: int| 0 <= j < i ==> #[trigger] res@[j + 1]@ == rest@[j]@,
        decreases rest.len() - i,
    {
        res.push(slice_of(&rest[i], 0, rest[i].len()));
        assert(rest@[i as int]@.subrange(0, rest@[i as int]@.len() as int) =~= rest@[i as int]@);
        i += 1;
    }
    proof {
        let fr = fields_of(v@.subrange(end as int, v.len() as int));
        assert(fields_of(s) == seq![t.subrange(0, word_len(t))] + fields_of(
            t.subrange(word_len(t), t.len() as int),
        ));
        assert(fields_of(s) =~= seq![word@] + fr);
        assert(res@.len() == fr.len() + 1);
        assert forall|j: int| 0 <= j < res@.len() implies #[trigger] res@[j]@ == fields_of(s)[j] by {
            if j > 0 {
                assert(res@[(j - 1) + 1]@ == rest@[j - 1]@);
            }
        }
    }
    res
}

// ---------------------------------------------------------------------------
// Decimal numbers
/// The value of a sequence of ASCII decimal digits.
pub open spec fn digits_value(s: Seq<char>) -> nat
    decreases s.len(),
{
    if s.len() == 0 {
        0
    } else {
        digits_value(s.drop_last()) * 10 + ((s.last() as u32) - ('0' as u32)) as nat
    }
}

/// Whether every character of `s` is an ASCII digit.
pub open spec fn all_digits(s: Seq<char>) -> bool {
    forall|i: int| 0 <= i < s.len() ==> '0' <= #[trigger] s[i] <= '9'
}

/// What `str::parse::<usize>` gives: an optional `'+'`, then one or more ASCII digits whose value
/// fits in a `usize`.
pub open spec fn parse_usize_spec(s: Seq<char>) -> Option<usize> {
    let d = if s.len() > 0 && s[0] == '+' {
        s.drop_first()
    } else {
        s
    };
    if d.len() > 0 && all_digits(d) && digits_value(d) <= usize::MAX {
        Some(digits_value(d) as usize)
    } else {
        None
    }
}

/// `str::parse::<usize>` on a character sequence.
pub fn parse_usize(s: &Vec<char>) -> (res: Option<usize>)
    ensures
        res == parse_usize_spec(s@),
{
    let start: usize = if s.len() > 0 && s[0] == '+' {
        1
    } else {
        0
    };
    let ghost d = s@.subrange(start as int, s.len() as int);
    proof {
        if start == 1 {
            assert(d =~= s@.drop_first());
        } else {
            assert(d =~= s@);
        }
    }
    if start == s.len() {
        return None;
    }
    let mut value: usize = 0;
    let mut i = start;
    while i < s.len()
        invariant
            start <= i <= s.len(),
            d == s@.subrange(start as int, s.len() as int),
            d == (if s@.len() > 0 && s@[0] == '+' {
                s@.drop_first()
            } else {
                s@
            }),
            all_digits(s@.subrange(start as int, i as int)),
            value == digits_value(s@.subrange(start as int, i as int)),
        decreases s.len() - i,
    {
        let c = s[i];
        let ghost pre = s@.subrange(start as int, i as int);
        let ghost next = s@.subrange(start as int, i + 1);
        assert(next.drop_last() =~= pre);
        if !('0' <= c && c <= '9') {
            assert(!all_digits(d)) by {
                assert(d[i - start] == c);
            }
            return None;
        }
        let digit = (c as u32 - '0' as u32) as usize;
        if value > (usize::MAX - digit) / 10 {
            proof {
                assert(d.subrange(0, (i + 1 - start) as int) =~= next);
                assert(digits_value(next) == value * 10 + digit) by (nonlinear_arith)
                    requires
                        digits_value(next) == digits_value(pre) * 10 + digit,
                        value == digits_value(pre),
                ;
                assert(value * 10 + digit > usize::MAX) by (nonlinear_arith)
                    requires
                        value > (usize::MAX - digit) / 10,
                        digit <= 9,
                ;
                if all_digits(d) {
                    lemma_digits_value_prefix_mono(d, (i + 1 - start) as int);
                }
            }
            return None;
        }
        assert(value * 10 + digit <= usize::MAX) by (nonlinear_arith)
            requires
                value <= (usize::MAX - digit) / 10,
        ;
        value = value * 10 + digit;
        i += 1;
        assert(all_digits(next));
    }
    assert(s@.subrange(start as int, s.len() as int) =~= d);
    Some(value)
}

/// The value of a digit prefix never exceeds the value of a longer digit prefix.
pub proof fn lemma_digits_value_prefix_mono(d: Seq<char>, k: int)
    requires
        0 <= k <= d.len(),
        all_digits(d),
    ensures
        digits_value(d.subrange(0, k)) <= digits_value(d),
    decreases d.len() - k,
{
    if k < d.len() {
        lemma_digits_value_prefix_mono(d, k + 1);
        assert(d.subrange(0, k + 1).drop_last() =~= d.subrange(0, k));
        assert('0' <= d[k]);
    } else {
        assert(d.subrange(0, k) =~= d);
    }
}

/// The decimal digits of `n` (no sign, no leading zeros; `"0"` for zero).
pub open spec fn decimal(n: nat) -> Seq<char>
    decreases n,
{
    if n < 10 {
        seq![digit_char(n)]
    } else {
        decimal(n / 10).push(digit_char(n % 10))
    }
}

/// The ASCII digit for `d < 10`.
pub open spec fn digit_char(d: nat) -> char {
    ((d + 48) as u32) as char
}

/// The decimal digits of `n` (see [`decimal`]).
fn decimal_digits(n: u64) -> (res: Vec<char>)
    ensures
        res@ == decimal(n as nat),
    decreases n,
{
    let d = (n % 10) as u8;
    let c = (d + 48) as char;
    assert(c == digit_char((n % 10) as nat));
    if n < 10 {
        let mut v: Vec<char> = Vec::new();
        v.push(c);
        assert(v@ =~= seq![c]);
        v
    } else {
        let mut v = decimal_digits(n / 10);
        v.push(c);
        v
    }
}

/// Formats `n` in decimal, as `u64::to_string` does.
pub(crate) fn decimal_string(n: u64) -> (res: String)
    ensures
        res@ == decimal(n as nat),
{
    string_from_chars(&decimal_digits(n))
}


/// The decimal digits of `n`, with a leading `'-'` when it is negative.
pub open spec fn signed_decimal(n: int) -> Seq<char> {
    if n < 0 {
        seq!['-'] + decimal((-n) as nat)
    } else {
        decimal(n as nat)
    }
}

/// Formats `n` in decimal with its sign, as `i64::to_string` does.
pub(crate) fn signed_decimal_string(n: i64) -> (res: String)
    ensures
        res@ == signed_decimal(n as int),
{
    if n < 0 {
        let magnitude: u64 = if n == i64::MIN {
            9223372036854775808
        } else {
            (-n) as u64
        };
        let mut res = String::new();
        push_char(&mut res, '-');
        let digits = decimal_digits(magnitude);
        push_chars(&mut res, &digits);
        assert(res@ =~= seq!['-'] + decimal((-n) as nat));
        res
    } else {
        decimal_string(n as u64)
    }
}


/// Whether two character vectors are equal.
pub fn chars_eq(a: &Vec<char>, b: &Vec<char>) -> (res: bool)
    ensures
        res == (a@ == b@),
{
    if a.len() != b.len() {
        return false;
    }
    let r = starts_with_exec(a, b);
    if r {
        assert(a@.subrange(0, b@.len() as int) =~= a@);
    } else {
        assert(a@ != b@ || a@.subrange(0, b@.len() as int) == b@) by {
            if a@ == b@ {
                assert(a@.subrange(0, b@.len() as int) =~= a@);
            }
        }
    }
    r
}

/// Whether two string slices hold the same characters.
pub fn str_eq(a: &str, b: &str) -> (res: bool)
    ensures
        res == (a@ == b@),
{
    chars_eq(&chars_of(a), &chars_of(b))
}

} // verus!
