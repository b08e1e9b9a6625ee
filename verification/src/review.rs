//! The review screen's decisions: which changes are listed, which stays selected, the branch
//! picker, scrolling, and what each key press asks for.
use vstd::prelude::*;

use crate::diff_view::RowPlace;
use crate::git::{change_label, is_test_path_spec, Change, DiffLine, LineKind, Mode};
use crate::refresh::bytes_eq;
use crate::git::strings_view;
use crate::text::{chars_of, contains_exec, contains_seq, push_char, slice_of, string_from_chars};

verus! {

/// Which panel has the keyboard.
#[derive(Clone, Copy, PartialEq, Eq, Debug, Structural)]
pub enum Focus {
    Files,
    Diff,
}

/// The lower-case form of a text.
pub uninterp spec fn lowercase(s: Seq<char>) -> Seq<char>;

/// std: `str::to_lowercase`, Unicode lower-casing. Only named.
#[verifier::external_body]
pub(crate) fn to_lowercase(s: &str) -> (res: String)
    ensures
        res@ == lowercase(s@),
{
    s.to_lowercase()
}

/// Whether `text` contains `query`, ignoring case.
pub open spec fn matches_query(text: Seq<char>, query: Seq<char>) -> bool {
    contains_seq(lowercase(text), lowercase(query))
}

fn matches_query_exec(text: &str, query_lower: &Vec<char>, Ghost(query): Ghost<Seq<char>>) -> (res: bool)
    requires
        query_lower@ == lowercase(query),
    ensures
        res == matches_query(text@, query),
{
    let t = to_lowercase(text);
    contains_exec(&chars_of(t.as_str()), query_lower)
}

// ---------------------------------------------------------------------------
// The listed changes
/// A change that counts as test code.
pub open spec fn is_test_change(c: (char, Seq<u8>, Option<Seq<u8>>)) -> bool {
    is_test_path_spec(c.1) && match c.2 {
        Some(p) => is_test_path_spec(p),
        None => true,
    }
}

/// Whether a change is listed: tests are shown or it is not test code, and its label
/// contains the query, ignoring case.
pub open spec fn listed(c: (char, Seq<u8>, Option<Seq<u8>>), show_tests: bool, query: Seq<char>) -> bool {
    (show_tests || !is_test_change(c)) && matches_query(change_label(c), query)
}

/// The indices of the listed changes among the first `n`, in order.
pub open spec fn listed_from(cs: Seq<Change>, show_tests: bool, query: Seq<char>, n: int) -> Seq<int>
    decreases n,
{
    if n <= 0 {
        Seq::empty()
    } else {
        let rest = listed_from(cs, show_tests, query, n - 1);
        if listed(cs[n - 1]@, show_tests, query) {
            rest.push(n - 1)
        } else {
            rest
        }
    }
}

/// Indices as integers.
pub open spec fn ints(v: Seq<usize>) -> Seq<int> {
    v.map_values(|i: usize| i as int)
}

/// The indices of the listed changes (see [`listed`]), in order.
pub fn visible_changes(changes: &Vec<Change>, show_tests: bool, query: &str) -> (res: Vec<usize>)
    ensures
        ints(res@) == listed_from(changes@, show_tests, query@, changes@.len() as int),
{
    let q = to_lowercase(query);
    let qv = chars_of(q.as_str());
    let mut res: Vec<usize> = Vec::new();
    for i in 0..changes.len()
        invariant
            qv@ == lowercase(query@),
            ints(res@) == listed_from(changes@, show_tests, query@, i as int),
    {
        let c = &changes[i];
        let keep = (show_tests || !c.is_test()) && matches_query_exec(
            c.label().as_str(),
            &qv,
            Ghost(query@),
        );
        if keep {
            let ghost before = ints(res@);
            res.push(i);
            assert(ints(res@) =~= before.push(i as int));
        }
    }
    res
}

/// How many changes the test filter hides: the test changes, or none when tests are shown.
pub open spec fn hidden_count_spec(cs: Seq<Change>, show_tests: bool, n: int) -> int
    decreases n,
{
    if n <= 0 || show_tests {
        0
    } else {
        hidden_count_spec(cs, show_tests, n - 1) + if is_test_change(cs[n - 1]@) {
            1int
        } else {
            0
        }
    }
}

/// How many changes the test filter hides.
pub fn hidden_count(changes: &Vec<Change>, show_tests: bool) -> (res: usize)
    ensures
        res == hidden_count_spec(changes@, show_tests, changes@.len() as int),
{
    if show_tests {
        return 0;
    }
    let mut count: usize = 0;
    for i in 0..changes.len()
        invariant
            !show_tests,
            count == hidden_count_spec(changes@, show_tests, i as int),
            count <= i,
    {
        if changes[i].is_test() {
            count += 1;
        }
    }
    count
}

/// The selection among `len` listed changes: where the kept change is listed, else the
/// previous selection (the top when none), at most the last; none when nothing is listed.
pub open spec fn kept_selection_spec(len: int, found: Option<int>, selected: Option<usize>) -> Option<int> {
    if len == 0 {
        None
    } else {
        match found {
            Some(i) => Some(i),
            None => {
                let s = match selected {
                    Some(i) => i as int,
                    None => 0,
                };
                Some(
                    if s < len - 1 {
                        s
                    } else {
                        len - 1
                    },
                )
            },
        }
    }
}

/// The first listed position from `k` on whose change has path `path`.
pub open spec fn position_of_path(cs: Seq<Change>, visible: Seq<usize>, path: Seq<u8>, k: int) -> Option<int>
    decreases visible.len() - k,
{
    if k < 0 || k >= visible.len() {
        None
    } else if cs[visible[k] as int].path@ == path {
        Some(k)
    } else {
        position_of_path(cs, visible, path, k + 1)
    }
}

/// The selection after the list changes: the listed change with the kept change's path, else
/// the previous position (see [`kept_selection_spec`]).
pub fn kept_selection(
    changes: &Vec<Change>,
    visible: &Vec<usize>,
    keep: Option<&Change>,
    selected: Option<usize>,
) -> (res: Option<usize>)
    requires
        forall|k: int| 0 <= k < visible@.len() ==> (#[trigger] visible@[k]) < changes@.len(),
    ensures
        match res {
            Some(i) => kept_selection_spec(
                visible@.len() as int,
                match keep {
                    Some(c) => position_of_path(changes@, visible@, c.path@, 0),
                    None => None,
                },
                selected,
            ) == Some(i as int),
            None => kept_selection_spec(
                visible@.len() as int,
                match keep {
                    Some(c) => position_of_path(changes@, visible@, c.path@, 0),
                    None => None,
                },
                selected,
            ) is None,
        },
{
    let n = visible.len();
    if n == 0 {
        return None;
    }
    if let Some(c) = keep {
        for k in 0..n
            invariant
                n == visible@.len(),
                n > 0,
                keep == Some(c),
                forall|k: int| 0 <= k < visible@.len() ==> (#[trigger] visible@[k]) < changes@.len(),
                position_of_path(changes@, visible@, c.path@, 0) == position_of_path(
                    changes@,
                    visible@,
                    c.path@,
                    k as int,
                ),
        {
            let v = visible[k];
            if bytes_eq(&changes[v].path, &c.path) {
                assert(changes@[visible@[k as int] as int].path@ == c.path@);
                assert(position_of_path(changes@, visible@, c.path@, k as int) == Some(k as int));
                return Some(k);
            }
        }
    }
    let s = match selected {
        Some(i) => i,
        None => 0,
    };
    Some(
        if s < n - 1 {
            s
        } else {
            n - 1
        },
    )
}

/// A position moved by `delta`, stopping at 0 and at `last`.
pub open spec fn clamp_move(current: int, delta: int, last: int) -> int {
    let moved = if current + delta < 0 {
        0
    } else if current + delta > usize::MAX {
        usize::MAX as int
    } else {
        current + delta
    };
    if moved < last {
        moved
    } else {
        last
    }
}

/// `current` moved by `delta` (saturating at the ends of `usize`), at most `last`.
pub fn clamped_move(current: usize, delta: isize, last: usize) -> (res: usize)
    ensures
        res == clamp_move(current as int, delta as int, last as int),
{
    let moved: usize = if delta >= 0 {
        let d = delta as usize;
        if current > usize::MAX - d {
            usize::MAX
        } else {
            current + d
        }
    } else {
        let d = (-(delta as i128)) as usize;
        if current < d {
            0
        } else {
            current - d
        }
    };
    if moved < last {
        moved
    } else {
        last
    }
}

/// The file selected after moving `delta` files: none of `len` listed files changes
/// nothing; otherwise the moved position at most the last file.
pub fn moved_file(selected: Option<usize>, len: usize, delta: isize) -> (res: Option<usize>)
    ensures
        len == 0 ==> res == selected,
        len > 0 ==> res == Some(
            clamp_move(
                match selected {
                    Some(i) => i as int,
                    None => 0,
                },
                delta as int,
                len - 1,
            ) as usize,
        ),
{
    if len == 0 {
        return selected;
    }
    let current = match selected {
        Some(i) => i,
        None => 0,
    };
    Some(clamped_move(current, delta, len - 1))
}

/// The listed position of change `change`, when it is listed.
pub fn position_in(visible: &Vec<usize>, change: usize) -> (res: Option<usize>)
    ensures
        match res {
            Some(k) => k < visible@.len() && visible@[k as int] == change && forall|j: int|
                0 <= j < k ==> visible@[j] != change,
            None => forall|j: int| 0 <= j < visible@.len() ==> visible@[j] != change,
        },
{
    for k in 0..visible.len()
        invariant
            forall|j: int| 0 <= j < k ==> visible@[j] != change,
    {
        if visible[k] == change {
            return Some(k);
        }
    }
    None
}

// ---------------------------------------------------------------------------
// Scrolling
/// How far the diff can scroll: the rows beyond one page.
pub fn max_scroll(rows: usize, page_height: usize) -> (res: usize)
    ensures
        res == if rows > page_height {
            rows - page_height
        } else {
            0
        },
{
    rows.saturating_sub(page_height)
}

/// The rows of a page for a panel `height` rows tall: without its border, at least one.
pub fn page_height(height: u16) -> (res: usize)
    ensures
        res == if height > 3 {
            height - 2
        } else {
            1
        },
{
    let h = height.saturating_sub(2) as usize;
    if h < 1 {
        1
    } else {
        h
    }
}

/// The scroll position after scrolling `delta` rows: saturating at 0, at most `max`.
pub fn scrolled(scroll: usize, delta: isize, max: usize) -> (res: usize)
    ensures
        res == clamp_move(scroll as int, delta as int, max as int),
{
    clamped_move(scroll, delta, max)
}

/// The first hunk row from row `i` on.
pub open spec fn first_hunk_from(rows: Seq<RowPlace>, i: int) -> Option<int>
    decreases rows.len() - i,
{
    if i < 0 || i >= rows.len() {
        None
    } else if rows[i].hunk {
        Some(i)
    } else {
        first_hunk_from(rows, i + 1)
    }
}

/// The last hunk row before row `i`.
pub open spec fn last_hunk_before(rows: Seq<RowPlace>, i: int) -> Option<int>
    decreases i,
{
    if i <= 0 {
        None
    } else if i - 1 < rows.len() && rows[i - 1].hunk {
        Some(i - 1)
    } else {
        last_hunk_before(rows, i - 1)
    }
}

/// The row a hunk jump lands on: the first hunk row below the top row (forward) or the last
/// one above it (backward).
pub open spec fn hunk_target(rows: Seq<RowPlace>, scroll: int, forward: bool) -> Option<int> {
    if forward {
        first_hunk_from(rows, scroll + 1)
    } else {
        last_hunk_before(rows, scroll)
    }
}

/// Where a hunk jump scrolls to (see [`hunk_target`]), at most `max`.
pub fn jump_hunk(rows: &Vec<RowPlace>, scroll: usize, forward: bool, max: usize) -> (res: Option<usize>)
    ensures
        match (res, hunk_target(rows@, scroll as int, forward)) {
            (Some(r), Some(t)) => r == if t < max {
                t
            } else {
                max as int
            },
            (None, None) => true,
            _ => false,
        },
{
    let n = rows.len();
    if forward {
        if scroll >= n {
            return None;
        }
        let mut i = scroll + 1;
        while i < n
            invariant
                n == rows@.len(),
                forward,
                scroll < i <= n,
                first_hunk_from(rows@, scroll + 1) == first_hunk_from(rows@, i as int),
            decreases n - i,
        {
            if rows[i].hunk {
                assert(first_hunk_from(rows@, i as int) == Some(i as int));
                return Some(if i < max {
                    i
                } else {
                    max
                });
            }
            i += 1;
        }
        None
    } else {
        let mut i = scroll;
        while i > 0
            invariant
                n == rows@.len(),
                !forward,
                i <= scroll,
                last_hunk_before(rows@, scroll as int) == last_hunk_before(rows@, i as int),
            decreases i,
        {
            if i - 1 < n && rows[i - 1].hunk {
                assert(last_hunk_before(rows@, i as int) == Some(i - 1));
                return Some(if i - 1 < max {
                    i - 1
                } else {
                    max
                });
            }
            i -= 1;
        }
        None
    }
}

// ---------------------------------------------------------------------------
// Keeping the reviewed line after a refresh
/// How a candidate line matches a reviewed line: equal (0), the same kind and old number
/// (1), or the same kind and new number (2).
pub open spec fn line_match(line: DiffLine, c: DiffLine, how: u8) -> bool {
    if how == 0 {
        c@ == line@
    } else if how == 1 {
        c.kind == line.kind && c.old == line.old
    } else {
        c.kind == line.kind && c.new == line.new
    }
}

/// The first line from `k` on that matches `line` in the way `how`.
pub open spec fn first_match_from(line: DiffLine, patch: Seq<DiffLine>, how: u8, k: int) -> Option<int>
    decreases patch.len() - k,
{
    if k < 0 || k >= patch.len() {
        None
    } else if line_match(line, patch[k], how) {
        Some(k)
    } else {
        first_match_from(line, patch, how, k + 1)
    }
}

/// The line of a new patch that continues a reviewed line: the same line, else a line of the
/// same kind with the same old number, else one with the same new number; none otherwise.
pub open spec fn matching_line(line: DiffLine, patch: Seq<DiffLine>) -> Option<int> {
    match first_match_from(line, patch, 0, 0) {
        Some(i) => Some(i),
        None => match if line.old is Some {
            first_match_from(line, patch, 1, 0)
        } else {
            None
        } {
            Some(i) => Some(i),
            None => if line.new is Some {
                first_match_from(line, patch, 2, 0)
            } else {
                None
            },
        },
    }
}

/// Whether two patch lines are equal.
fn lines_equal(a: &DiffLine, b: &DiffLine) -> (res: bool)
    ensures
        res == (a@ == b@),
{
    a.kind == b.kind && a.old == b.old && a.new == b.new && crate::text::str_eq(
        a.text.as_str(),
        b.text.as_str(),
    )
}

/// The first line of `patch` that matches `line` in the way `how` (see [`line_match`]).
fn first_match(line: &DiffLine, patch: &Vec<DiffLine>, how: u8) -> (res: Option<usize>)
    requires
        how <= 2,
    ensures
        match res {
            Some(k) => first_match_from(*line, patch@, how, 0) == Some(k as int),
            None => first_match_from(*line, patch@, how, 0) is None,
        },
{
    for k in 0..patch.len()
        invariant
            how <= 2,
            first_match_from(*line, patch@, how, 0) == first_match_from(*line, patch@, how, k as int),
    {
        let c = &patch[k];
        let hit = if how == 0 {
            lines_equal(c, line)
        } else if how == 1 {
            c.kind == line.kind && c.old == line.old
        } else {
            c.kind == line.kind && c.new == line.new
        };
        if hit {
            return Some(k);
        }
    }
    None
}

/// Where the reviewed line `anchor` of the old patch is in a new patch (see
/// [`matching_line`]); when it cannot be found, the same position, at most the new last line.
pub fn next_anchor(old_patch: &Vec<DiffLine>, anchor: usize, new_patch: &Vec<DiffLine>) -> (res: usize)
    ensures
        ({
            let fallback = if anchor < new_patch@.len() - 1 {
                anchor as int
            } else if new_patch@.len() > 0 {
                new_patch@.len() - 1
            } else {
                0
            };
            if anchor < old_patch@.len() {
                match matching_line(old_patch@[anchor as int], new_patch@) {
                    Some(i) => res == i,
                    None => res == fallback,
                }
            } else {
                res == fallback
            }
        }),
{
    let last = new_patch.len().saturating_sub(1);
    let fallback = if anchor < last {
        anchor
    } else {
        last
    };
    if anchor >= old_patch.len() {
        return fallback;
    }
    let line = &old_patch[anchor];
    if let Some(k) = first_match(line, new_patch, 0) {
        return k;
    }
    if line.old.is_some() {
        if let Some(k) = first_match(line, new_patch, 1) {
            return k;
        }
    }
    if line.new.is_some() {
        if let Some(k) = first_match(line, new_patch, 2) {
            return k;
        }
    }
    fallback
}


// ---------------------------------------------------------------------------
// The branch picker
/// A dialog that picks two branches to compare: first the base, then the target.
pub struct BranchPicker {
    pub branches: Vec<String>,
    pub from: Option<String>,
    pub query: String,
    pub selected: Option<usize>,
}

/// The branches whose names contain the query, ignoring case, in order.
pub open spec fn visible_branches(branches: Seq<Seq<char>>, query: Seq<char>) -> Seq<Seq<char>> {
    branches.filter(|b: Seq<char>| matches_query(b, query))
}

/// Removes the last character of a string, if any.
fn pop_char(s: &mut String)
    ensures
        final(s)@ == if old(s)@.len() > 0 {
            old(s)@.drop_last()
        } else {
            old(s)@
        },
{
    let cs = chars_of(s.as_str());
    if cs.len() > 0 {
        let kept = slice_of(&cs, 0, cs.len() - 1);
        assert(kept@ =~= cs@.drop_last());
        *s = string_from_chars(&kept);
    }
}

impl BranchPicker {
    /// A picker over `branches`, nothing chosen yet, the first one selected.
    pub fn new(branches: Vec<String>) -> (res: BranchPicker)
        ensures
            res.branches@ == branches@,
            res.from is None,
            res.query@ == Seq::<char>::empty(),
            res.selected == Some(0usize),
    {
        BranchPicker { branches, from: None, query: String::new(), selected: Some(0) }
    }

    /// The branches listed for the query (see [`visible_branches`]).
    pub fn visible(&self) -> (res: Vec<String>)
        ensures
            strings_view(res@) == visible_branches(strings_view(self.branches@), self.query@),
    {
        let q = to_lowercase(self.query.as_str());
        let qv = chars_of(q.as_str());
        let ghost all = strings_view(self.branches@);
        let ghost pred = |b: Seq<char>| matches_query(b, self.query@);
        let mut res: Vec<String> = Vec::new();
        for i in 0..self.branches.len()
            invariant
                qv@ == lowercase(self.query@),
                all == strings_view(self.branches@),
                pred == (|b: Seq<char>| matches_query(b, self.query@)),
                strings_view(res@) == all.take(i as int).filter(pred),
        {
            reveal_with_fuel(Seq::filter, 1);
            assert(all.take(i + 1).drop_last() =~= all.take(i as int));
            let ghost before = res@;
            if matches_query_exec(self.branches[i].as_str(), &qv, Ghost(self.query@)) {
                res.push(self.branches[i].clone());
                assert(strings_view(res@) =~= strings_view(before).push(all[i as int]));
            }
        }
        assert(all.take(all.len() as int) =~= all);
        res
    }

    /// Moves the selection by `delta`, within the listed branches.
    pub fn move_selection(&mut self, delta: isize)
        ensures
            ({
                let n = visible_branches(strings_view(old(self).branches@), old(self).query@).len();
                final(self).selected == Some(
                    clamp_move(
                        match old(self).selected {
                            Some(i) => i as int,
                            None => 0,
                        },
                        delta as int,
                        if n > 0 {
                            n - 1
                        } else {
                            0
                        },
                    ) as usize,
                )
            }),
            final(self).branches == old(self).branches,
            final(self).from == old(self).from,
            final(self).query == old(self).query,
    {
        let n = self.visible().len();
        let last = if n > 0 {
            n - 1
        } else {
            0
        };
        let current = match self.selected {
            Some(i) => i,
            None => 0,
        };
        self.selected = Some(clamped_move(current, delta, last));
    }

    /// Types a character into the query and selects the first branch.
    pub fn type_char(&mut self, c: char)
        ensures
            final(self).query@ == old(self).query@.push(c),
            final(self).selected == Some(0usize),
            final(self).branches == old(self).branches,
            final(self).from == old(self).from,
    {
        push_char(&mut self.query, c);
        self.selected = Some(0);
    }

    /// Deletes the query's last character and selects the first branch.
    pub fn backspace(&mut self)
        ensures
            final(self).query@ == if old(self).query@.len() > 0 {
                old(self).query@.drop_last()
            } else {
                old(self).query@
            },
            final(self).selected == Some(0usize),
            final(self).branches == old(self).branches,
            final(self).from == old(self).from,
    {
        pop_char(&mut self.query);
        self.selected = Some(0);
    }

    /// Chooses the selected branch: the first choice becomes the base (and the query is
    /// cleared); the second completes the comparison, which is returned.
    pub fn pick(&mut self) -> (res: Option<(String, String)>)
        ensures
            ({
                let vis = visible_branches(strings_view(old(self).branches@), old(self).query@);
                let k = match old(self).selected {
                    Some(i) => i as int,
                    None => 0,
                };
                if 0 <= k < vis.len() {
                    match old(self).from {
                        Some(f) => (res matches Some(pair) && pair.0@ == f@ && pair.1@ == vis[k]),
                        None => {
                            &&& res is None
                            &&& final(self).from is Some
                            &&& final(self).from.unwrap()@ == vis[k]
                            &&& final(self).query@ == Seq::<char>::empty()
                            &&& final(self).selected == Some(0usize)
                            &&& final(self).branches == old(self).branches
                        },
                    }
                } else {
                    res is None && *final(self) == *old(self)
                }
            }),
    {
        let vis = self.visible();
        let k = match self.selected {
            Some(i) => i,
            None => 0,
        };
        if k >= vis.len() {
            return None;
        }
        let chosen = vis[k].clone();
        match &self.from {
            Some(f) => Some((f.clone(), chosen)),
            None => {
                self.from = Some(chosen);
                self.query = String::new();
                self.selected = Some(0);
                None
            },
        }
    }
}

// ---------------------------------------------------------------------------
// Keys
/// A key of the review screen.
#[derive(Clone, Copy, PartialEq, Eq, Debug, Structural)]
pub enum Key {
    Char(char),
    Enter,
    Esc,
    Tab,
    BackTab,
    Up,
    Down,
    Left,
    Right,
    Home,
    End,
    PageUp,
    PageDown,
    Backspace,
    Other,
}

/// A key press: the key and whether Control was held.
#[derive(Clone, Copy, PartialEq, Eq, Debug, Structural)]
pub struct KeyPress {
    pub key: Key,
    pub ctrl: bool,
}

/// Which dialog is open.
#[derive(Clone, Copy, PartialEq, Eq, Debug, Structural)]
pub enum DialogKind {
    Closed,
    Help,
    Branches,
}

/// A comparison a key switches to.
#[derive(Clone, Copy, PartialEq, Eq, Debug, Structural)]
pub enum ModeChoice {
    Working,
    Staged,
    Unstaged,
}

/// What a key press asks the review screen for.
#[derive(Clone, Copy, PartialEq, Eq, Debug, Structural)]
pub enum Command {
    Quit,
    Nothing,
    /// Close the dialog.
    CloseDialog,
    /// Leave the help open.
    KeepHelp,
    PickerMove(isize),
    PickerChoose,
    PickerBackspace,
    PickerType(char),
    /// Stop searching and clear the query.
    SearchCancel,
    /// Stop searching and keep the query.
    SearchDone,
    SearchBackspace,
    SearchType(char),
    /// Move down (up when negative) in the focused panel.
    Vertical(isize),
    ToggleFocus,
    /// Open the selected tree entry (toggling a directory when asked).
    OpenTree(bool),
    CollapseTree,
    FocusFiles,
    MoveFile(isize),
    ShiftLeft,
    ShiftRight,
    JumpHunk(bool),
    ToggleView,
    ToggleIndent,
    ToggleGuides,
    ToggleTests,
    StartSearch,
    ClearQuery,
    /// Read the comparison again (toggling whitespace first when asked).
    Refresh(bool),
    SwitchMode(ModeChoice),
    OpenBranches,
    OpenHelp,
}

/// Half a page, at least one row.
pub open spec fn half_page(page_height: usize) -> int {
    if page_height / 2 < 1 {
        1
    } else {
        (page_height / 2) as int
    }
}

/// What a key press asks for: Control-C quits everywhere; an open dialog takes the key;
/// while searching, keys edit the query; Control-D and Control-U move half a page; other keys
/// act on the focused panel or the whole screen.
pub open spec fn command_spec(
    dialog: DialogKind,
    searching: bool,
    focus: Focus,
    page_height: usize,
    press: KeyPress,
) -> Command {
    let files = focus == Focus::Files;
    if press.key == Key::Char('c') && press.ctrl {
        Command::Quit
    } else if dialog == DialogKind::Help {
        match press.key {
            Key::Esc | Key::Char('?') | Key::Char('q') | Key::Enter => Command::CloseDialog,
            _ => Command::KeepHelp,
        }
    } else if dialog == DialogKind::Branches {
        match press.key {
            Key::Esc => Command::CloseDialog,
            Key::Down => Command::PickerMove(1isize),
            Key::Up => Command::PickerMove(-1isize),
            Key::Enter => Command::PickerChoose,
            Key::Backspace => Command::PickerBackspace,
            Key::Char(c) => if !press.ctrl {
                Command::PickerType(c)
            } else {
                Command::Nothing
            },
            _ => Command::Nothing,
        }
    } else if searching {
        match press.key {
            Key::Esc => Command::SearchCancel,
            Key::Enter => Command::SearchDone,
            Key::Backspace => Command::SearchBackspace,
            Key::Char(c) => if !press.ctrl {
                Command::SearchType(c)
            } else {
                Command::Nothing
            },
            _ => Command::Nothing,
        }
    } else if press.ctrl {
        match press.key {
            Key::Char('d') => Command::Vertical(half_page(page_height) as isize),
            Key::Char('u') => Command::Vertical(-half_page(page_height) as isize),
            _ => Command::Nothing,
        }
    } else {
        match press.key {
            Key::Char('q') => Command::Quit,
            Key::Tab | Key::BackTab => Command::ToggleFocus,
            Key::Enter => if files {
                Command::OpenTree(true)
            } else {
                Command::Nothing
            },
            Key::Right => if files {
                Command::OpenTree(false)
            } else {
                Command::ShiftRight
            },
            Key::Char('l') => if files {
                Command::OpenTree(false)
            } else {
                Command::Nothing
            },
            Key::Left => if files {
                Command::CollapseTree
            } else {
                Command::ShiftLeft
            },
            Key::Char('h') => if files {
                Command::CollapseTree
            } else {
                Command::FocusFiles
            },
            Key::Down | Key::Char('j') => Command::Vertical(1isize),
            Key::Up | Key::Char('k') => Command::Vertical(-1isize),
            Key::PageDown | Key::Char(' ') => Command::Vertical(page_height as isize),
            Key::PageUp => Command::Vertical(-(page_height as int) as isize),
            Key::Char('n') => Command::MoveFile(1isize),
            Key::Char('p') => Command::MoveFile(-1isize),
            Key::Home | Key::Char('g') => Command::Vertical(isize::MIN),
            Key::End | Key::Char('G') => Command::Vertical(isize::MAX),
            Key::Char(']') => Command::JumpHunk(true),
            Key::Char('[') => Command::JumpHunk(false),
            Key::Char('v') => Command::ToggleView,
            Key::Char('i') => Command::ToggleIndent,
            Key::Char('I') => Command::ToggleGuides,
            Key::Char('t') => Command::ToggleTests,
            Key::Char('/') => Command::StartSearch,
            Key::Esc => Command::ClearQuery,
            Key::Char('r') => Command::Refresh(false),
            Key::Char('W') => Command::Refresh(true),
            Key::Char('w') => Command::SwitchMode(ModeChoice::Working),
            Key::Char('s') => Command::SwitchMode(ModeChoice::Staged),
            Key::Char('u') => Command::SwitchMode(ModeChoice::Unstaged),
            Key::Char('b') => Command::OpenBranches,
            Key::Char('?') => Command::OpenHelp,
            _ => Command::Nothing,
        }
    }
}

/// In the review screen itself (no dialog, no search, Control not held) the letter keys move
/// as the arrows and paging keys do: `j`/`k` as Down/Up, one row down or up; space as Page
/// Down, a page down; `g`/`G` as Home/End, to the top and the bottom. Control-d and Control-u
/// move half a page down and up, by the same amount.
pub proof fn law_letter_keys_move_like_arrows(focus: Focus, page_height: usize)
    ensures
        ({
            let at = |k: Key| command_spec(DialogKind::Closed, false, focus, page_height, KeyPress { key: k, ctrl: false });
            let ctl = |k: Key| command_spec(DialogKind::Closed, false, focus, page_height, KeyPress { key: k, ctrl: true });
            &&& at(Key::Char('j')) == at(Key::Down)
            &&& at(Key::Char('k')) == at(Key::Up)
            &&& at(Key::Down) == Command::Vertical(1isize)
            &&& at(Key::Up) == Command::Vertical(-1isize)
            &&& at(Key::Char(' ')) == at(Key::PageDown)
            &&& at(Key::PageDown) == Command::Vertical(page_height as isize)
            &&& at(Key::Char('g')) == at(Key::Home)
            &&& at(Key::Char('G')) == at(Key::End)
            &&& at(Key::Home) == Command::Vertical(isize::MIN)
            &&& at(Key::End) == Command::Vertical(isize::MAX)
            &&& ctl(Key::Char('d')) matches Command::Vertical(down)
            &&& ctl(Key::Char('u')) matches Command::Vertical(up)
            &&& down > 0 && up == -down
        }),
{
}

/// Control-c quits from every state of the screen, and while searching or in the branch
/// picker a typed character (without Control) goes into the text being typed.
pub proof fn law_quit_and_typing(dialog: DialogKind, searching: bool, focus: Focus, page_height: usize, c: char)
    ensures
        command_spec(dialog, searching, focus, page_height, KeyPress { key: Key::Char('c'), ctrl: true })
            == Command::Quit,
        dialog == DialogKind::Branches ==> command_spec(
            dialog,
            searching,
            focus,
            page_height,
            KeyPress { key: Key::Char(c), ctrl: false },
        ) == Command::PickerType(c),
        dialog == DialogKind::Closed && searching ==> command_spec(
            dialog,
            searching,
            focus,
            page_height,
            KeyPress { key: Key::Char(c), ctrl: false },
        ) == Command::SearchType(c),
{
}

/// What a key press asks for (see [`command_spec`]).
pub fn command_for(
    dialog: DialogKind,
    searching: bool,
    focus: Focus,
    page_height: usize,
    press: KeyPress,
) -> (res: Command)
    requires
        page_height <= isize::MAX,
    ensures
        res == command_spec(dialog, searching, focus, page_height, press),
{
    let files = focus == Focus::Files;
    if press.key == Key::Char('c') && press.ctrl {
        return Command::Quit;
    }
    if dialog == DialogKind::Help {
        return match press.key {
            Key::Esc | Key::Char('?') | Key::Char('q') | Key::Enter => Command::CloseDialog,
            _ => Command::KeepHelp,
        };
    }
    if dialog == DialogKind::Branches {
        return match press.key {
            Key::Esc => Command::CloseDialog,
            Key::Down => Command::PickerMove(1),
            Key::Up => Command::PickerMove(-1),
            Key::Enter => Command::PickerChoose,
            Key::Backspace => Command::PickerBackspace,
            Key::Char(c) => if !press.ctrl {
                Command::PickerType(c)
            } else {
                Command::Nothing
            },
            _ => Command::Nothing,
        };
    }
    if searching {
        return match press.key {
            Key::Esc => Command::SearchCancel,
            Key::Enter => Command::SearchDone,
            Key::Backspace => Command::SearchBackspace,
            Key::Char(c) => if !press.ctrl {
                Command::SearchType(c)
            } else {
                Command::Nothing
            },
            _ => Command::Nothing,
        };
    }
    let half: isize = if page_height / 2 < 1 {
        1
    } else {
        (page_height / 2) as isize
    };
    if press.ctrl {
        return match press.key {
            Key::Char('d') => Command::Vertical(half),
            Key::Char('u') => Command::Vertical(-half),
            _ => Command::Nothing,
        };
    }
    let page = page_height as isize;
    match press.key {
        Key::Char('q') => Command::Quit,
        Key::Tab | Key::BackTab => Command::ToggleFocus,
        Key::Enter => if files {
            Command::OpenTree(true)
        } else {
            Command::Nothing
        },
        Key::Right => if files {
            Command::OpenTree(false)
        } else {
            Command::ShiftRight
        },
        Key::Char('l') => if files {
            Command::OpenTree(false)
        } else {
            Command::Nothing
        },
        Key::Left => if files {
            Command::CollapseTree
        } else {
            Command::ShiftLeft
        },
        Key::Char('h') => if files {
            Command::CollapseTree
        } else {
            Command::FocusFiles
        },
        Key::Down | Key::Char('j') => Command::Vertical(1),
        Key::Up | Key::Char('k') => Command::Vertical(-1),
        Key::PageDown | Key::Char(' ') => Command::Vertical(page),
        Key::PageUp => Command::Vertical(-page),
        Key::Char('n') => Command::MoveFile(1),
        Key::Char('p') => Command::MoveFile(-1),
        Key::Home | Key::Char('g') => Command::Vertical(isize::MIN),
        Key::End | Key::Char('G') => Command::Vertical(isize::MAX),
        Key::Char(']') => Command::JumpHunk(true),
        Key::Char('[') => Command::JumpHunk(false),
        Key::Char('v') => Command::ToggleView,
        Key::Char('i') => Command::ToggleIndent,
        Key::Char('I') => Command::ToggleGuides,
        Key::Char('t') => Command::ToggleTests,
        Key::Char('/') => Command::StartSearch,
        Key::Esc => Command::ClearQuery,
        Key::Char('r') => Command::Refresh(false),
        Key::Char('W') => Command::Refresh(true),
        Key::Char('w') => Command::SwitchMode(ModeChoice::Working),
        Key::Char('s') => Command::SwitchMode(ModeChoice::Staged),
        Key::Char('u') => Command::SwitchMode(ModeChoice::Unstaged),
        Key::Char('b') => Command::OpenBranches,
        Key::Char('?') => Command::OpenHelp,
        _ => Command::Nothing,
    }
}


/// The comparison asked for on the command line: one revision is compared with `HEAD`, two
/// with each other; otherwise `--staged`, then `--unstaged`, else the working tree.
pub fn mode_from_args(revisions: &Vec<String>, staged: bool, unstaged: bool) -> (res: Mode)
    ensures
        revisions@.len() == 1 ==> (res matches Mode::Branches(from, to) && from@ == revisions@[0]@
            && to@ == "HEAD"@),
        revisions@.len() == 2 ==> (res matches Mode::Branches(from, to) && from@ == revisions@[0]@
            && to@ == revisions@[1]@),
        revisions@.len() != 1 && revisions@.len() != 2 ==> res == if staged {
            Mode::Staged
        } else if unstaged {
            Mode::Unstaged
        } else {
            Mode::Working
        },
{
    if revisions.len() == 1 {
        Mode::Branches(revisions[0].clone(), String::from_str("HEAD"))
    } else if revisions.len() == 2 {
        Mode::Branches(revisions[0].clone(), revisions[1].clone())
    } else if staged {
        Mode::Staged
    } else if unstaged {
        Mode::Unstaged
    } else {
        Mode::Working
    }
}

/// The review is drawn only on a terminal of at least 40 columns by 10 rows.
pub fn fits_screen(width: u16, height: u16) -> (res: bool)
    ensures
        res == (width >= 40 && height >= 10),
{
    width >= 40 && height >= 10
}

/// The rows of the header: two, then the wrapped path, leaving the body and footer at least
/// five rows.
pub fn header_rows(path_lines: usize, height: u16) -> (res: u16)
    requires
        height >= 10,
    ensures
        res == if path_lines + 2 < height - 5 {
            path_lines + 2
        } else {
            height - 5
        },
{
    let limit = (height - 5) as usize;
    if path_lines < limit - 2 {
        (path_lines + 2) as u16
    } else {
        height - 5
    }
}

/// What the diff pane says when no file is listed: that the comparison has no changes, that
/// the search matches none, or that every change is a test; nothing when a file is listed.
pub fn empty_message(listed: usize, changes: usize, query_empty: bool) -> (res: Option<String>)
    ensures
        listed > 0 ==> res is None,
        listed == 0 && changes == 0 ==> (res matches Some(m) && m@ == "No changes in this comparison."@),
        listed == 0 && changes > 0 && !query_empty ==> (res matches Some(m) && m@
            == "No matching files. Esc clears the search."@),
        listed == 0 && changes > 0 && query_empty ==> (res matches Some(m) && m@
            == "All changed files are tests. Press t to show them."@),
{
    if listed > 0 {
        None
    } else if changes == 0 {
        Some(String::from_str("No changes in this comparison."))
    } else if !query_empty {
        Some(String::from_str("No matching files. Esc clears the search."))
    } else {
        Some(String::from_str("All changed files are tests. Press t to show them."))
    }
}

/// Where the file tree goes beside the diff: on a body of 90 columns or more, to the left, a
/// third of the width kept within 28 to 60 columns (`true`, columns); otherwise above, a third
/// of the height and at least 3 rows (`false`, rows).
pub fn files_pane(width: u16, height: u16) -> (res: (bool, u16))
    ensures
        width >= 90 ==> res == (true, if width / 3 < 28 {
            28u16
        } else if width / 3 > 60 {
            60u16
        } else {
            (width / 3) as u16
        }),
        width < 90 ==> res == (false, if height / 3 < 3 {
            3u16
        } else {
            (height / 3) as u16
        }),
{
    if width >= 90 {
        let third = width / 3;
        (true, if third < 28 {
            28
        } else if third > 60 {
            60
        } else {
            third
        })
    } else {
        let third = height / 3;
        (false, if third < 3 {
            3
        } else {
            third
        })
    }
}

/// Whether two changes are the same change (status and paths).
pub fn same_change(a: &Change, b: &Change) -> (res: bool)
    ensures
        res == (a@ == b@),
{
    if a.status != b.status || !bytes_eq(&a.path, &b.path) {
        return false;
    }
    match (&a.old_path, &b.old_path) {
        (Some(x), Some(y)) => bytes_eq(x, y),
        (None, None) => true,
        _ => false,
    }
}

/// Whether two optional changes are the same.
pub fn same_optional_change(a: Option<&Change>, b: Option<&Change>) -> (res: bool)
    ensures
        res == (match (a, b) {
            (Some(x), Some(y)) => x@ == y@,
            (None, None) => true,
            _ => false,
        }),
{
    match (a, b) {
        (Some(x), Some(y)) => same_change(x, y),
        (None, None) => true,
        _ => false,
    }
}

/// What a finished refresh does: a result for a request made before the review last moved
/// (another file, filter or comparison) is dropped, so it never overwrites what was chosen
/// since; a current one reports its failure, or is applied.
#[derive(Clone, Copy, PartialEq, Eq, Debug, Structural)]
pub enum RefreshStep {
    Discard,
    ReportFailure,
    Apply,
}

/// See [`RefreshStep`].
pub fn refresh_step(request_generation: u64, generation: u64, failed: bool) -> (res: RefreshStep)
    ensures
        request_generation != generation ==> res == RefreshStep::Discard,
        request_generation == generation && failed ==> res == RefreshStep::ReportFailure,
        request_generation == generation && !failed ==> res == RefreshStep::Apply,
{
    if request_generation != generation {
        RefreshStep::Discard
    } else if failed {
        RefreshStep::ReportFailure
    } else {
        RefreshStep::Apply
    }
}

/// What applying an update does once its file list is taken.
#[derive(Clone, Copy, PartialEq, Eq, Debug, Structural)]
pub enum UpdatePlan {
    /// Nothing more changes.
    Nothing,
    /// The selected file's patch is read again.
    ReloadPatch,
    /// The update's preview of the selected file is shown in place of the one on screen.
    ShowPreview,
}

/// What applying an update does, given the change selected before it (`keep`), the one
/// selected after its file list is taken, the change its preview is of, and whether that
/// preview equals the one on screen: a preview of another file than the one selected is not
/// used, and the patch is read again unless nothing is or was selected; a preview of the
/// selected file is shown unless it is the same file with the same preview as before.
pub fn update_plan(
    keep: Option<&Change>,
    selected: Option<&Change>,
    preview: Option<&Change>,
    same_preview: bool,
) -> (res: UpdatePlan)
    ensures
        res == (match (preview, selected) {
            (Some(p), Some(s)) if p@ == s@ => if (keep matches Some(k) && k@ == p@) && same_preview {
                UpdatePlan::Nothing
            } else {
                UpdatePlan::ShowPreview
            },
            _ => if selected is None && keep is None {
                UpdatePlan::Nothing
            } else {
                UpdatePlan::ReloadPatch
            },
        }),
{
    let usable = match (preview, selected) {
        (Some(p), Some(s)) => same_change(p, s),
        _ => false,
    };
    if !usable {
        if selected.is_none() && keep.is_none() {
            UpdatePlan::Nothing
        } else {
            UpdatePlan::ReloadPatch
        }
    } else if same_optional_change(keep, preview) && same_preview {
        UpdatePlan::Nothing
    } else {
        UpdatePlan::ShowPreview
    }
}

/// Why the comparison asked for on the command line was refused.
#[derive(Clone, Copy, PartialEq, Eq, Debug, Structural)]
pub enum ArgumentError {
    /// More than two revisions (a base and a target) were given.
    TooManyRevisions,
    /// `--staged` with `--unstaged`, or either of them with revisions.
    Conflict,
}

/// The comparison asked for on the command line, once its arguments are checked: at most two
/// revisions, and `--staged` and `--unstaged` neither together nor with revisions; then as
/// [`mode_from_args`] chooses.
pub fn comparison_from_args(revisions: &Vec<String>, staged: bool, unstaged: bool) -> (res: Result<
    Mode,
    ArgumentError,
>)
    ensures
        revisions@.len() > 2 ==> res == Err::<Mode, ArgumentError>(ArgumentError::TooManyRevisions),
        revisions@.len() <= 2 && ((staged && unstaged) || ((staged || unstaged) && revisions@.len() > 0))
            ==> res == Err::<Mode, ArgumentError>(ArgumentError::Conflict),
        revisions@.len() == 1 && !staged && !unstaged ==> (res matches Ok(Mode::Branches(from, to))
            && from@ == revisions@[0]@ && to@ == "HEAD"@),
        revisions@.len() == 2 && !staged && !unstaged ==> (res matches Ok(Mode::Branches(from, to))
            && from@ == revisions@[0]@ && to@ == revisions@[1]@),
        revisions@.len() == 0 && !(staged && unstaged) ==> res == Ok::<Mode, ArgumentError>(
            if staged {
                Mode::Staged
            } else if unstaged {
                Mode::Unstaged
            } else {
                Mode::Working
            },
        ),
{
    if revisions.len() > 2 {
        return Err(ArgumentError::TooManyRevisions);
    }
    if (staged && unstaged) || ((staged || unstaged) && revisions.len() > 0) {
        return Err(ArgumentError::Conflict);
    }
    Ok(mode_from_args(revisions, staged, unstaged))
}

/// Moves across the production/test boundary stay visible for review: a change whose old
/// and new paths are on different sides is never test code, so the test filter never hides
/// it; it is listed exactly when its label matches the query.
pub proof fn law_moves_across_the_test_boundary_stay_listed(
    c: (char, Seq<u8>, Option<Seq<u8>>),
    query: Seq<char>,
)
    requires
        c.2 matches Some(o) && is_test_path_spec(c.1) != is_test_path_spec(o),
    ensures
        !is_test_change(c),
        listed(c, false, query) == matches_query(change_label(c), query),
{
}

/// With tests hidden, no listed change is test code: every listed index names one of the
/// changes looked at, and that change is not a test.
pub proof fn law_hidden_tests_are_not_listed(cs: Seq<Change>, query: Seq<char>, n: int)
    requires
        0 <= n <= cs.len(),
    ensures
        forall|k: int|
            0 <= k < listed_from(cs, false, query, n).len() ==> 0 <= #[trigger] listed_from(
                cs,
                false,
                query,
                n,
            )[k] < n && !is_test_change(cs[listed_from(cs, false, query, n)[k]]@),
    decreases n,
{
    if n > 0 {
        law_hidden_tests_are_not_listed(cs, query, n - 1);
        let rest = listed_from(cs, false, query, n - 1);
        let all = listed_from(cs, false, query, n);
        assert forall|k: int| 0 <= k < all.len() implies 0 <= #[trigger] all[k] < n
            && !is_test_change(cs[all[k]]@) by {
            if k < rest.len() {
                assert(all[k] == rest[k]);
            }
        }
    }
}


// ---------------------------------------------------------------------------
// The review screen's own state
/// What the review screen keeps of its own, apart from the comparison and the diff on
/// screen: the focused panel, the file search, the filters and the open dialog.
pub struct Review {
    pub focus: Focus,
    pub searching: bool,
    pub query: String,
    pub show_tests: bool,
    pub ignore_whitespace: bool,
    pub horizontal: u16,
    pub dialog: DialogKind,
}

/// The review state as plain values.
pub struct ReviewView {
    pub focus: Focus,
    pub searching: bool,
    pub query: Seq<char>,
    pub show_tests: bool,
    pub ignore_whitespace: bool,
    pub horizontal: u16,
    pub dialog: DialogKind,
}

impl View for Review {
    type V = ReviewView;

    open spec fn view(&self) -> ReviewView {
        ReviewView {
            focus: self.focus,
            searching: self.searching,
            query: self.query@,
            show_tests: self.show_tests,
            ignore_whitespace: self.ignore_whitespace,
            horizontal: self.horizontal,
            dialog: self.dialog,
        }
    }
}

/// The work a command leaves to the screen once the review state has changed: reading
/// the repository, moving in the file tree or the diff, or changing how the diff is drawn.
#[derive(Clone, Copy, PartialEq, Eq, Debug, Structural)]
pub enum Effect {
    Quit,
    Nothing,
    /// List the changes again for the filters, keeping the selected one where it stays.
    Refilter,
    /// Move the file tree's selection.
    MoveTree(isize),
    /// Scroll the diff.
    Scroll(isize),
    OpenTree(bool),
    CollapseTree,
    MoveFile(isize),
    JumpHunk(bool),
    ToggleView,
    ToggleIndent,
    ToggleGuides,
    /// Read the comparison again.
    Refresh,
    SwitchMode(ModeChoice),
    /// Read the branches and open the picker over them.
    OpenBranches,
    PickerMove(isize),
    PickerChoose,
    PickerBackspace,
    PickerType(char),
}

/// The state `r` with another query.
pub open spec fn with_query(r: ReviewView, query: Seq<char>) -> ReviewView {
    ReviewView { query, ..r }
}

/// What a command does: the next review state and the work left to the screen.
pub open spec fn command_step(r: ReviewView, command: Command) -> (ReviewView, Effect) {
    match command {
        Command::Quit => (r, Effect::Quit),
        Command::Nothing | Command::KeepHelp => (r, Effect::Nothing),
        Command::CloseDialog => (ReviewView { dialog: DialogKind::Closed, ..r }, Effect::Nothing),
        Command::OpenHelp => (ReviewView { dialog: DialogKind::Help, ..r }, Effect::Nothing),
        Command::OpenBranches => (r, Effect::OpenBranches),
        Command::PickerMove(d) => (r, Effect::PickerMove(d)),
        Command::PickerChoose => (r, Effect::PickerChoose),
        Command::PickerBackspace => (r, Effect::PickerBackspace),
        Command::PickerType(c) => (r, Effect::PickerType(c)),
        Command::SearchCancel => (
            ReviewView { searching: false, query: Seq::empty(), ..r },
            Effect::Refilter,
        ),
        Command::SearchDone => (ReviewView { searching: false, ..r }, Effect::Nothing),
        Command::SearchBackspace => (
            with_query(r, if r.query.len() > 0 { r.query.drop_last() } else { r.query }),
            Effect::Refilter,
        ),
        Command::SearchType(c) => (with_query(r, r.query.push(c)), Effect::Refilter),
        Command::Vertical(d) => (r, if r.focus == Focus::Files {
            Effect::MoveTree(d)
        } else {
            Effect::Scroll(d)
        }),
        Command::ToggleFocus => (
            ReviewView {
                focus: if r.focus == Focus::Files {
                    Focus::Diff
                } else {
                    Focus::Files
                },
                ..r
            },
            Effect::Nothing,
        ),
        Command::OpenTree(toggle) => (r, Effect::OpenTree(toggle)),
        Command::CollapseTree => (r, Effect::CollapseTree),
        Command::FocusFiles => (ReviewView { focus: Focus::Files, ..r }, Effect::Nothing),
        Command::MoveFile(d) => (r, Effect::MoveFile(d)),
        Command::ShiftLeft => (
            ReviewView {
                horizontal: if r.horizontal < 8 {
                    0u16
                } else {
                    (r.horizontal - 8) as u16
                },
                ..r
            },
            Effect::Nothing,
        ),
        Command::ShiftRight => (
            ReviewView {
                horizontal: if r.horizontal > u16::MAX - 8 {
                    u16::MAX
                } else {
                    (r.horizontal + 8) as u16
                },
                ..r
            },
            Effect::Nothing,
        ),
        Command::JumpHunk(forward) => (ReviewView { focus: Focus::Diff, ..r }, Effect::JumpHunk(forward)),
        Command::ToggleView => (r, Effect::ToggleView),
        Command::ToggleIndent => (ReviewView { horizontal: 0u16, ..r }, Effect::ToggleIndent),
        Command::ToggleGuides => (r, Effect::ToggleGuides),
        Command::ToggleTests => (ReviewView { show_tests: !r.show_tests, ..r }, Effect::Refilter),
        Command::StartSearch => (
            ReviewView { focus: Focus::Files, searching: true, query: Seq::empty(), ..r },
            Effect::Refilter,
        ),
        Command::ClearQuery => (with_query(r, Seq::empty()), Effect::Refilter),
        Command::Refresh(toggle) => (
            ReviewView { ignore_whitespace: r.ignore_whitespace != toggle, ..r },
            Effect::Refresh,
        ),
        Command::SwitchMode(choice) => (r, Effect::SwitchMode(choice)),
    }
}

impl Review {
    /// A review focused on the file list, with no search, no dialog and the given filter.
    pub fn new(show_tests: bool) -> (res: Review)
        ensures
            res@ == (ReviewView {
                focus: Focus::Files,
                searching: false,
                query: Seq::empty(),
                show_tests,
                ignore_whitespace: false,
                horizontal: 0u16,
                dialog: DialogKind::Closed,
            }),
    {
        Review {
            focus: Focus::Files,
            searching: false,
            query: String::new(),
            show_tests,
            ignore_whitespace: false,
            horizontal: 0,
            dialog: DialogKind::Closed,
        }
    }

    /// Carries out a command on the review state (see [`command_step`]) and returns the work
    /// left to the screen.
    pub fn apply_command(&mut self, command: Command) -> (res: Effect)
        ensures
            (final(self)@, res) == command_step(old(self)@, command),
    {
        match command {
            Command::Quit => Effect::Quit,
            Command::Nothing | Command::KeepHelp => Effect::Nothing,
            Command::CloseDialog => {
                self.dialog = DialogKind::Closed;
                Effect::Nothing
            },
            Command::OpenHelp => {
                self.dialog = DialogKind::Help;
                Effect::Nothing
            },
            Command::OpenBranches => Effect::OpenBranches,
            Command::PickerMove(d) => Effect::PickerMove(d),
            Command::PickerChoose => Effect::PickerChoose,
            Command::PickerBackspace => Effect::PickerBackspace,
            Command::PickerType(c) => Effect::PickerType(c),
            Command::SearchCancel => {
                self.searching = false;
                self.query = String::new();
                Effect::Refilter
            },
            Command::SearchDone => {
                self.searching = false;
                Effect::Nothing
            },
            Command::SearchBackspace => {
                pop_char(&mut self.query);
                Effect::Refilter
            },
            Command::SearchType(c) => {
                push_char(&mut self.query, c);
                Effect::Refilter
            },
            Command::Vertical(d) => {
                if self.focus == Focus::Files {
                    Effect::MoveTree(d)
                } else {
                    Effect::Scroll(d)
                }
            },
            Command::ToggleFocus => {
                self.focus = if self.focus == Focus::Files {
                    Focus::Diff
                } else {
                    Focus::Files
                };
                Effect::Nothing
            },
            Command::OpenTree(toggle) => Effect::OpenTree(toggle),
            Command::CollapseTree => Effect::CollapseTree,
            Command::FocusFiles => {
                self.focus = Focus::Files;
                Effect::Nothing
            },
            Command::MoveFile(d) => Effect::MoveFile(d),
            Command::ShiftLeft => {
                self.horizontal = self.horizontal.saturating_sub(8);
                Effect::Nothing
            },
            Command::ShiftRight => {
                self.horizontal = self.horizontal.saturating_add(8);
                Effect::Nothing
            },
            Command::JumpHunk(forward) => {
                self.focus = Focus::Diff;
                Effect::JumpHunk(forward)
            },
            Command::ToggleView => Effect::ToggleView,
            Command::ToggleIndent => {
                self.horizontal = 0;
                Effect::ToggleIndent
            },
            Command::ToggleGuides => Effect::ToggleGuides,
            Command::ToggleTests => {
                self.show_tests = !self.show_tests;
                Effect::Refilter
            },
            Command::StartSearch => {
                self.focus = Focus::Files;
                self.searching = true;
                self.query = String::new();
                Effect::Refilter
            },
            Command::ClearQuery => {
                self.query = String::new();
                Effect::Refilter
            },
            Command::Refresh(toggle) => {
                if toggle {
                    self.ignore_whitespace = !self.ignore_whitespace;
                }
                Effect::Refresh
            },
            Command::SwitchMode(choice) => Effect::SwitchMode(choice),
        }
    }
}

/// Toggling the focus, the test filter, or whitespace (with a refresh) twice leaves the
/// review state as it was.
pub proof fn law_toggles_undo_themselves(r: ReviewView, command: Command)
    requires
        command == Command::ToggleFocus || command == Command::ToggleTests || command
            == Command::Refresh(true),
    ensures
        command_step(command_step(r, command).0, command).0 == r,
{
}

/// Typing a character into the search and deleting it again gives back the query.
pub proof fn law_search_backspace_undoes_typing(r: ReviewView, c: char)
    ensures
        command_step(command_step(r, Command::SearchType(c)).0, Command::SearchBackspace).0 == r,
{
    assert(r.query.push(c).drop_last() =~= r.query);
}

} // verus!
