//! The week on screen: a group of entries for each day, the visible rows (a day row, then its
//! entry rows unless the day is folded), the selection, and the undo operations of the journal.
use vstd::prelude::*;

use crate::calendar::{
    at_range_edge, day_text, display_day, in_time_range, utc_day, valid_day, weekday, weekday_from_monday,
    CalendarWeek,
};
use crate::til::{day_md, format_day_as_markdown, trim_spec, validate_content, TilEntry, TilError};
use crate::text::{decimal, decimal_string, push_str, signed_decimal, signed_decimal_string, str_eq};
use crate::undo::UndoHistory;

verus! {

/// How many changes the journal can undo.
pub const UNDO_LIMIT: usize = 5;

/// A change the journal can undo, recorded as its inverse.
#[derive(Clone)]
pub enum UndoOperation {
    /// Undo an added entry by deleting it.
    DeleteCreated { entry_id: i64 },
    /// Undo a deletion by restoring the entry.
    RestoreDeleted { entry: TilEntry },
    /// Undo an edit by restoring the old content.
    RestoreContent { entry_id: i64, content: String },
    /// Undo a move by restoring the old time, and show the day it came from.
    RestoreRecordedAt { entry_id: i64, recorded_at: i64, date_to_show: i32 },
}

/// An undo history of the journal's capacity.
pub fn new_undo_history() -> (res: UndoHistory<UndoOperation>)
    ensures
        res@.len() == 0,
        res.cap() == UNDO_LIMIT,
        res.wf(),
{
    UndoHistory::new(UNDO_LIMIT)
}

/// A day of the week and its entries, oldest first.
pub struct DateGroup {
    pub date: i32,
    pub entries: Vec<TilEntry>,
}

/// A visible row: a day, or an entry of a day.
#[derive(Clone, Copy, Debug, PartialEq, Eq, Structural)]
pub enum VisibleRow {
    Date { group_index: usize },
    Entry { group_index: usize, entry_index: usize },
}

/// What a row shows, independent of where it is: a day, or an entry by id.
#[derive(Clone, Copy, Debug, PartialEq, Eq, Structural)]
pub enum RowKey {
    Date(i32),
    Entry(i64),
}

/// The week on screen.
pub struct WeekView {
    pub selected_date: i32,
    pub date_groups: Vec<DateGroup>,
    pub visible_rows: Vec<VisibleRow>,
    pub selection: Option<usize>,
    pub collapsed_dates: Vec<i32>,
}

/// The rows of one group: its day row, then one row per entry unless the day is folded.
pub open spec fn group_rows(g: int, entries: nat, folded: bool) -> Seq<VisibleRow> {
    seq![VisibleRow::Date { group_index: g as usize }] + if folded {
        Seq::empty()
    } else {
        Seq::new(entries, |e: int| VisibleRow::Entry { group_index: g as usize, entry_index: e as usize })
    }
}

/// The rows of the first `n` groups, in order.
pub open spec fn rows_spec(groups: Seq<DateGroup>, folded: Set<i32>, n: int) -> Seq<VisibleRow>
    decreases n,
{
    if n <= 0 {
        Seq::empty()
    } else {
        rows_spec(groups, folded, n - 1) + group_rows(
            n - 1,
            groups[n - 1].entries@.len(),
            folded.contains(groups[n - 1].date),
        )
    }
}

/// What a row shows, when it points into the groups.
pub open spec fn row_key_spec(groups: Seq<DateGroup>, row: VisibleRow) -> Option<RowKey> {
    match row {
        VisibleRow::Date { group_index } => if group_index < groups.len() {
            Some(RowKey::Date(groups[group_index as int].date))
        } else {
            None
        },
        VisibleRow::Entry { group_index, entry_index } => if group_index < groups.len()
            && entry_index < groups[group_index as int].entries@.len() {
            Some(RowKey::Entry(groups[group_index as int].entries@[entry_index as int].id))
        } else {
            None
        },
    }
}

/// The first row that shows `key`, or -1.
pub open spec fn row_position(groups: Seq<DateGroup>, rows: Seq<VisibleRow>, key: RowKey) -> int
    decreases rows.len(),
{
    if rows.len() == 0 {
        -1
    } else if row_key_spec(groups, rows.last()) == Some(key) && row_position(
        groups,
        rows.drop_last(),
        key,
    ) < 0 {
        rows.len() - 1
    } else {
        row_position(groups, rows.drop_last(), key)
    }
}

pub proof fn lemma_row_position(groups: Seq<DateGroup>, rows: Seq<VisibleRow>, key: RowKey)
    ensures
        -1 <= row_position(groups, rows, key) < rows.len(),
        row_position(groups, rows, key) >= 0 ==> row_key_spec(
            groups,
            rows[row_position(groups, rows, key)],
        ) == Some(key),
        forall|j: int|
            0 <= j < rows.len() && (row_position(groups, rows, key) < 0 || j < row_position(
                groups,
                rows,
                key,
            )) ==> row_key_spec(groups, rows[j]) != Some(key),
    decreases rows.len(),
{
    if rows.len() > 0 {
        lemma_row_position(groups, rows.drop_last(), key);
        assert forall|j: int|
            0 <= j < rows.len() && (row_position(groups, rows, key) < 0 || j < row_position(
                groups,
                rows,
                key,
            )) implies row_key_spec(groups, rows[j]) != Some(key) by {
            if j < rows.len() - 1 {
                assert(rows[j] == rows.drop_last()[j]);
            }
        }
    }
}

/// The selection for a preferred row: the first row showing it, else the row of the selected
/// day, else the first row; none when there are no rows.
pub open spec fn preferred_selection(
    groups: Seq<DateGroup>,
    rows: Seq<VisibleRow>,
    preferred: RowKey,
    selected_date: i32,
) -> Option<int> {
    let p = row_position(groups, rows, preferred);
    let d = row_position(groups, rows, RowKey::Date(selected_date));
    if p >= 0 {
        Some(p)
    } else if d >= 0 {
        Some(d)
    } else if rows.len() > 0 {
        Some(0)
    } else {
        None
    }
}

/// The group a row belongs to.
pub open spec fn row_group(row: VisibleRow) -> usize {
    match row {
        VisibleRow::Date { group_index } => group_index,
        VisibleRow::Entry { group_index, .. } => group_index,
    }
}

/// The selected day after selecting row `sel`: the day of the row's group, when there is one.
pub open spec fn date_after_selection(
    groups: Seq<DateGroup>,
    rows: Seq<VisibleRow>,
    sel: Option<int>,
    date: i32,
) -> i32 {
    match sel {
        Some(i) => if 0 <= i < rows.len() && row_group(rows[i]) < groups.len() {
            groups[row_group(rows[i]) as int].date
        } else {
            date
        },
        None => date,
    }
}

/// The entries of the groups for `dates`: each day's entries, in the order given, taken from
/// entries paired with their day.
pub open spec fn entries_on(entries: Seq<(i32, TilEntry)>, date: i32) -> Seq<TilEntry> {
    entries.filter(on_day(date)).map_values(entry_part())
}

/// Whether a paired entry is on `date`.
pub open spec fn on_day(date: i32) -> spec_fn((i32, TilEntry)) -> bool {
    |e: (i32, TilEntry)| e.0 == date
}

/// The entry of a paired entry.
pub open spec fn entry_part() -> spec_fn((i32, TilEntry)) -> TilEntry {
    |e: (i32, TilEntry)| e.1
}

/// An optional index as an integer.
pub open spec fn opt_usize(o: Option<usize>) -> Option<int> {
    match o {
        Some(i) => Some(i as int),
        None => None,
    }
}

impl WeekView {
    /// The folded days.
    pub open spec fn folded(&self) -> Set<i32> {
        self.collapsed_dates@.to_set()
    }

    /// The rows match the groups and the folded days.
    pub open spec fn rows_ok(&self) -> bool {
        self.visible_rows@ == rows_spec(self.date_groups@, self.folded(), self.date_groups@.len() as int)
    }

    /// A view of no days, selecting `date`.
    pub fn new(date: i32) -> (res: WeekView)
        ensures
            res.selected_date == date,
            res.date_groups@.len() == 0,
            res.visible_rows@.len() == 0,
            res.selection is None,
            res.folded() == Set::<i32>::empty(),
    {
        let res = WeekView {
            selected_date: date,
            date_groups: Vec::new(),
            visible_rows: Vec::new(),
            selection: None,
            collapsed_dates: Vec::new(),
        };
        assert(res.collapsed_dates@.to_set() =~= Set::<i32>::empty());
        res
    }

    /// The week of the selected day.
    pub fn calendar_week(&self) -> (res: CalendarWeek)
        requires
            valid_day(self.selected_date as int),
            valid_day(self.selected_date - weekday(self.selected_date as int)),
        ensures
            res.monday() == self.selected_date - weekday(self.selected_date as int),
    {
        CalendarWeek::containing(self.selected_date)
    }

    /// Whether a day is folded.
    pub fn is_collapsed(&self, date: i32) -> (res: bool)
        ensures
            res == self.folded().contains(date),
    {
        contains_i32(&self.collapsed_dates, date)
    }

    /// Folds or unfolds a day.
    fn set_folded(&mut self, date: i32, folded: bool)
        ensures
            final(self).folded() == if folded {
                old(self).folded().insert(date)
            } else {
                old(self).folded().remove(date)
            },
            final(self).date_groups == old(self).date_groups,
            final(self).visible_rows == old(self).visible_rows,
            final(self).selection == old(self).selection,
            final(self).selected_date == old(self).selected_date,
    {
        let ghost before = self.collapsed_dates@;
        if folded {
            if !contains_i32(&self.collapsed_dates, date) {
                self.collapsed_dates.push(date);
                proof {
                    lemma_push_contains(before, date);
                }
                assert(self.collapsed_dates@.to_set() =~= before.to_set().insert(date));
            } else {
                assert(before.to_set().insert(date) =~= before.to_set());
            }
        } else {
            let mut kept: Vec<i32> = Vec::new();
            for i in 0..self.collapsed_dates.len()
                invariant
                    self.collapsed_dates@ == before,
                    forall|x: i32| #[trigger]
                        kept@.contains(x) <==> (x != date && before.take(i as int).contains(x)),
            {
                let x = self.collapsed_dates[i];
                proof {
                    lemma_take_contains(before, i as int);
                }
                let ghost k0 = kept@;
                if x != date {
                    kept.push(x);
                    proof {
                        lemma_push_contains(k0, x);
                        assert(kept@ == k0.push(x));
                    }
                }
            }
            assert(before.take(before.len() as int) =~= before);
            self.collapsed_dates = kept;
            assert(self.collapsed_dates@.to_set() =~= before.to_set().remove(date));
        }
    }

    /// Rebuilds the visible rows: each day's row, followed by its entry rows unless it is
    /// folded.
    pub fn rebuild_visible_rows(&mut self)
        ensures
            final(self).rows_ok(),
            final(self).date_groups == old(self).date_groups,
            final(self).folded() == old(self).folded(),
            final(self).selection == old(self).selection,
            final(self).selected_date == old(self).selected_date,
    {
        let mut rows: Vec<VisibleRow> = Vec::new();
        let n = self.date_groups.len();
        for g in 0..n
            invariant
                n == self.date_groups@.len(),
                rows@ == rows_spec(self.date_groups@, self.folded(), g as int),
        {
            let ghost before = rows@;
            rows.push(VisibleRow::Date { group_index: g });
            let folded = self.is_collapsed(self.date_groups[g].date);
            if !folded {
                let count = self.date_groups[g].entries.len();
                for e in 0..count
                    invariant
                        rows@ == before + seq![VisibleRow::Date { group_index: g }] + Seq::new(
                            e as nat,
                            |k: int| VisibleRow::Entry { group_index: g, entry_index: k as usize },
                        ),
                {
                    rows.push(VisibleRow::Entry { group_index: g, entry_index: e });
                    assert(rows@ =~= before + seq![VisibleRow::Date { group_index: g }] + Seq::new(
                        (e + 1) as nat,
                        |k: int| VisibleRow::Entry { group_index: g, entry_index: k as usize },
                    ));
                }
                assert(rows@ =~= before + group_rows(g as int, count as nat, false));
            } else {
                assert(rows@ =~= before + group_rows(g as int, self.date_groups@[g as int].entries@.len(), true));
            }
        }
        self.visible_rows = rows;
    }

    /// What a row shows.
    pub fn row_key(&self, row: VisibleRow) -> (res: Option<RowKey>)
        ensures
            res == row_key_spec(self.date_groups@, row),
    {
        match row {
            VisibleRow::Date { group_index } => if group_index < self.date_groups.len() {
                Some(RowKey::Date(self.date_groups[group_index].date))
            } else {
                None
            },
            VisibleRow::Entry { group_index, entry_index } => if group_index
                < self.date_groups.len() && entry_index
                < self.date_groups[group_index].entries.len() {
                Some(RowKey::Entry(self.date_groups[group_index].entries[entry_index].id))
            } else {
                None
            },
        }
    }

    /// The selected row, when the selection points at one.
    pub fn selected_row(&self) -> (res: Option<VisibleRow>)
        ensures
            res == match self.selection {
                Some(i) => if i < self.visible_rows@.len() {
                    Some(self.visible_rows@[i as int])
                } else {
                    None
                },
                None => None,
            },
    {
        match self.selection {
            Some(i) => if i < self.visible_rows.len() {
                Some(self.visible_rows[i])
            } else {
                None
            },
            None => None,
        }
    }

    /// What the selected row shows.
    pub open spec fn selected_key(&self) -> Option<RowKey> {
        match self.selection {
            Some(i) => if i < self.visible_rows@.len() {
                row_key_spec(self.date_groups@, self.visible_rows@[i as int])
            } else {
                None
            },
            None => None,
        }
    }

    /// What the selected row shows.
    pub fn selected_row_key(&self) -> (res: Option<RowKey>)
        ensures
            res == self.selected_key(),
    {
        match self.selected_row() {
            Some(row) => self.row_key(row),
            None => None,
        }
    }

    /// The id of the selected entry, when an entry row is selected.
    pub fn selected_entry_id(&self) -> (res: Option<i64>)
        ensures
            res matches Some(id) ==> self.selected_key() == Some(RowKey::Entry(id)),
            res is None ==> !(self.selected_key() matches Some(RowKey::Entry(_))),
    {
        match self.selected_row_key() {
            Some(RowKey::Entry(id)) => Some(id),
            _ => None,
        }
    }

    /// The first row showing `key`.
    pub fn position_of(&self, key: RowKey) -> (res: Option<usize>)
        ensures
            match res {
                Some(i) => row_position(self.date_groups@, self.visible_rows@, key) == i,
                None => row_position(self.date_groups@, self.visible_rows@, key) < 0,
            },
    {
        let mut i: usize = 0;
        while i < self.visible_rows.len()
            invariant
                i <= self.visible_rows.len(),
                forall|j: int|
                    0 <= j < i ==> row_key_spec(self.date_groups@, self.visible_rows@[j]) != Some(
                        key,
                    ),
            decreases self.visible_rows.len() - i,
        {
            let k = self.row_key(self.visible_rows[i]);
            if k == Some(key) {
                proof {
                    lemma_row_position(self.date_groups@, self.visible_rows@, key);
                    let p = row_position(self.date_groups@, self.visible_rows@, key);
                    if p < 0 || p > i {
                        assert(row_key_spec(self.date_groups@, self.visible_rows@[i as int]) != Some(key));
                    }
                }
                return Some(i);
            }
            i += 1;
        }
        proof {
            lemma_row_position(self.date_groups@, self.visible_rows@, key);
            let p = row_position(self.date_groups@, self.visible_rows@, key);
            if p >= 0 {
                assert(row_key_spec(self.date_groups@, self.visible_rows@[p]) == Some(key));
            }
        }
        None
    }

    /// Moves the selected day to the day of the selected row's group.
    pub fn update_selected_date(&mut self)
        ensures
            final(self).selected_date == date_after_selection(
                old(self).date_groups@,
                old(self).visible_rows@,
                opt_usize(old(self).selection),
                old(self).selected_date,
            ),
            final(self).date_groups == old(self).date_groups,
            final(self).visible_rows == old(self).visible_rows,
            final(self).selection == old(self).selection,
            final(self).collapsed_dates == old(self).collapsed_dates,
    {
        let g = match self.selected_row() {
            Some(VisibleRow::Date { group_index }) => group_index,
            Some(VisibleRow::Entry { group_index, .. }) => group_index,
            None => return,
        };
        if g < self.date_groups.len() {
            self.selected_date = self.date_groups[g].date;
        }
    }

    /// Selects a preferred row (by default the selected day's row): the first row showing it,
    /// else the selected day's row, else the first row; then follows the selection's day.
    pub fn select_preferred(&mut self, preferred: Option<RowKey>)
        ensures
            opt_usize(final(self).selection) == preferred_selection(
                old(self).date_groups@,
                old(self).visible_rows@,
                match preferred {
                    Some(k) => k,
                    None => RowKey::Date(old(self).selected_date),
                },
                old(self).selected_date,
            ),
            final(self).selected_date == date_after_selection(
                old(self).date_groups@,
                old(self).visible_rows@,
                opt_usize(final(self).selection),
                old(self).selected_date,
            ),
            final(self).date_groups == old(self).date_groups,
            final(self).visible_rows == old(self).visible_rows,
            final(self).folded() == old(self).folded(),
    {
        let key = match preferred {
            Some(k) => k,
            None => RowKey::Date(self.selected_date),
        };
        let index = match self.position_of(key) {
            Some(i) => Some(i),
            None => match self.position_of(RowKey::Date(self.selected_date)) {
                Some(i) => Some(i),
                None => if self.visible_rows.len() > 0 {
                    Some(0)
                } else {
                    None
                },
            },
        };
        self.selection = index;
        self.update_selected_date();
    }

    /// Replaces the groups with the days of a week and their entries (each entry paired with
    /// its day), keeps only folded days of that week, and rebuilds the rows.
    pub fn set_week(&mut self, dates: &Vec<i32>, entries: &Vec<(i32, TilEntry)>)
        ensures
            final(self).date_groups@.len() == dates@.len(),
            forall|g: int|
                0 <= g < dates@.len() ==> (#[trigger] final(self).date_groups@[g]).date == dates@[g]
                    && final(self).date_groups@[g].entries@ == entries_on(entries@, dates@[g]),
            final(self).folded() == old(self).folded().filter(|d: i32| dates@.contains(d)),
            final(self).rows_ok(),
            final(self).selection == old(self).selection,
            final(self).selected_date == old(self).selected_date,
    {
        let mut groups: Vec<DateGroup> = Vec::new();
        for g in 0..dates.len()
            invariant
                groups@.len() == g,
                forall|k: int|
                    0 <= k < g ==> (#[trigger] groups@[k]).date == dates@[k] && groups@[k].entries@
                        == entries_on(entries@, dates@[k]),
        {
            let date = dates[g];
            let ghost pred = on_day(date);
            let mut list: Vec<TilEntry> = Vec::new();
            for i in 0..entries.len()
                invariant
                    pred == on_day(date),
                    list@ == entries@.take(i as int).filter(pred).map_values(entry_part()),
            {
                reveal_with_fuel(Seq::filter, 1);
                let ghost before = list@;
                assert(entries@.take(i + 1).drop_last() =~= entries@.take(i as int));
                if entries[i].0 == date {
                    list.push(copy_entry(&entries[i].1));
                    assert(entries@.take(i + 1).filter(pred) == entries@.take(i as int).filter(
                        pred,
                    ).push(entries@[i as int]));
                    assert(list@ =~= entries@.take(i + 1).filter(pred).map_values(entry_part()));
                } else {
                    assert(entries@.take(i + 1).filter(pred) == entries@.take(i as int).filter(
                        pred,
                    ));
                }
            }
            assert(entries@.take(entries.len() as int) =~= entries@);
            assert(list@ == entries_on(entries@, date));
            groups.push(DateGroup { date, entries: list });
        }
        self.date_groups = groups;
        let ghost before = self.collapsed_dates@;
        let mut kept: Vec<i32> = Vec::new();
        for i in 0..self.collapsed_dates.len()
            invariant
                self.collapsed_dates@ == before,
                forall|x: i32| #[trigger]
                    kept@.contains(x) <==> (dates@.contains(x) && before.take(i as int).contains(x)),
        {
            let x = self.collapsed_dates[i];
            proof {
                lemma_take_contains(before, i as int);
            }
            let ghost k0 = kept@;
            if contains_i32(dates, x) {
                kept.push(x);
                proof {
                    lemma_push_contains(k0, x);
                    assert(kept@ == k0.push(x));
                }
            }
        }
        assert(before.take(before.len() as int) =~= before);
        self.collapsed_dates = kept;
        assert(self.collapsed_dates@.to_set() =~= before.to_set().filter(|d: i32| dates@.contains(d)));
        self.rebuild_visible_rows();
    }
}

/// A copy of an entry.
pub fn copy_entry(e: &TilEntry) -> (res: TilEntry)
    ensures
        res == *e,
{
    TilEntry { id: e.id, content: e.content.clone(), recorded_at: e.recorded_at }
}

/// Whether `v` holds `x`.
pub fn contains_i32(v: &Vec<i32>, x: i32) -> (res: bool)
    ensures
        res == v@.contains(x),
{
    let mut i: usize = 0;
    while i < v.len()
        invariant
            i <= v.len(),
            forall|k: int| 0 <= k < i ==> v@[k] != x,
        decreases v.len() - i,
    {
        if v[i] == x {
            assert(v@[i as int] == x);
            return true;
        }
        i += 1;
    }
    false
}

/// What the first `i + 1` elements hold: what the first `i` hold, and element `i`.
pub proof fn lemma_take_contains<A>(s: Seq<A>, i: int)
    requires
        0 <= i < s.len(),
    ensures
        forall|y: A| #[trigger] s.take(i + 1).contains(y) <==> (s.take(i).contains(y) || y == s[i]),
{
    assert forall|y: A| #[trigger] s.take(i + 1).contains(y) <==> (s.take(i).contains(y) || y
        == s[i]) by {
        if s.take(i + 1).contains(y) {
            let k = choose|k: int| 0 <= k < s.take(i + 1).len() && #[trigger] s.take(i + 1)[k] == y;
            if k < i {
                assert(s.take(i)[k] == y);
            }
        }
        if s.take(i).contains(y) {
            let k = choose|k: int| 0 <= k < s.take(i).len() && #[trigger] s.take(i)[k] == y;
            assert(s.take(i + 1)[k] == y);
        }
        if y == s[i] {
            assert(s.take(i + 1)[i] == y);
        }
    }
}

/// What a sequence holds after a push: what it held, and the pushed element.
pub proof fn lemma_push_contains<A>(s: Seq<A>, x: A)
    ensures
        forall|y: A| #[trigger] s.push(x).contains(y) <==> (s.contains(y) || y == x),
{
    assert forall|y: A| #[trigger] s.push(x).contains(y) <==> (s.contains(y) || y == x) by {
        if s.push(x).contains(y) {
            let k = choose|k: int| 0 <= k < s.push(x).len() && #[trigger] s.push(x)[k] == y;
            if k < s.len() {
                assert(s[k] == y);
            }
        }
        if s.contains(y) {
            let k = choose|k: int| 0 <= k < s.len() && #[trigger] s[k] == y;
            assert(s.push(x)[k] == y);
        }
        if y == x {
            assert(s.push(x)[s.len() as int] == y);
        }
    }
}


// ---------------------------------------------------------------------------
// Rows point into the groups; folding a day
/// A row points at a group, and an entry row at an entry of its group.
pub open spec fn row_in_range(groups: Seq<DateGroup>, r: VisibleRow) -> bool {
    match r {
        VisibleRow::Date { group_index } => group_index < groups.len(),
        VisibleRow::Entry { group_index, entry_index } => group_index < groups.len() && entry_index
            < groups[group_index as int].entries@.len(),
    }
}

/// Every row of the first `n` groups points into them.
pub proof fn lemma_rows_in_range(groups: Seq<DateGroup>, folded: Set<i32>, n: int)
    requires
        0 <= n <= groups.len(),
        groups.len() <= usize::MAX,
    ensures
        forall|i: int|
            0 <= i < rows_spec(groups, folded, n).len() ==> row_in_range(
                groups,
                #[trigger] rows_spec(groups, folded, n)[i],
            ) && row_group(rows_spec(groups, folded, n)[i]) < n,
    decreases n,
{
    if n > 0 {
        lemma_rows_in_range(groups, folded, n - 1);
        let prev = rows_spec(groups, folded, n - 1);
        let gr = group_rows(n - 1, groups[n - 1].entries@.len(), folded.contains(groups[n - 1].date));
        assert forall|i: int| 0 <= i < rows_spec(groups, folded, n).len() implies row_in_range(
            groups,
            #[trigger] rows_spec(groups, folded, n)[i],
        ) && row_group(rows_spec(groups, folded, n)[i]) < n by {
            if i < prev.len() {
                assert(rows_spec(groups, folded, n)[i] == prev[i]);
            } else {
                assert(rows_spec(groups, folded, n)[i] == gr[i - prev.len()]);
            }
        }
    }
}

/// An entry row of a group on day `d`.
pub open spec fn shows_entry_of(groups: Seq<DateGroup>, r: VisibleRow, d: i32) -> bool {
    match r {
        VisibleRow::Entry { group_index, .. } => group_index < groups.len()
            && groups[group_index as int].date == d,
        VisibleRow::Date { .. } => false,
    }
}

/// The rows that stay when day `d` is folded.
pub open spec fn kept_when_folding(groups: Seq<DateGroup>, d: i32) -> spec_fn(VisibleRow) -> bool {
    |r: VisibleRow| !shows_entry_of(groups, r, d)
}

/// A filter that keeps every element changes nothing.
pub proof fn lemma_filter_keeps_all<A>(s: Seq<A>, p: spec_fn(A) -> bool)
    requires
        forall|i: int| 0 <= i < s.len() ==> p(#[trigger] s[i]),
    ensures
        s.filter(p) == s,
    decreases s.len(),
{
    reveal_with_fuel(Seq::filter, 1);
    if s.len() > 0 {
        assert forall|i: int| 0 <= i < s.drop_last().len() implies p(#[trigger] s.drop_last()[i]) by {
            assert(s.drop_last()[i] == s[i]);
        }
        lemma_filter_keeps_all(s.drop_last(), p);
        assert(s.drop_last().push(s.last()) =~= s);
    }
}

/// A filter that keeps no element leaves nothing.
pub proof fn lemma_filter_keeps_none<A>(s: Seq<A>, p: spec_fn(A) -> bool)
    requires
        forall|i: int| 0 <= i < s.len() ==> !p(#[trigger] s[i]),
    ensures
        s.filter(p) == Seq::<A>::empty(),
    decreases s.len(),
{
    reveal_with_fuel(Seq::filter, 1);
    if s.len() > 0 {
        assert forall|i: int| 0 <= i < s.drop_last().len() implies !p(#[trigger] s.drop_last()[i]) by {
            assert(s.drop_last()[i] == s[i]);
        }
        lemma_filter_keeps_none(s.drop_last(), p);
    }
}

/// Folding day `d` over the first `n` groups removes exactly the entry rows of that day.
pub proof fn lemma_fold_rows(groups: Seq<DateGroup>, folded: Set<i32>, d: i32, n: int)
    requires
        0 <= n <= groups.len(),
        groups.len() <= usize::MAX,
    ensures
        rows_spec(groups, folded.insert(d), n) == rows_spec(groups, folded, n).filter(
            kept_when_folding(groups, d),
        ),
    decreases n,
{
    let p = kept_when_folding(groups, d);
    reveal_with_fuel(Seq::filter, 1);
    if n > 0 {
        lemma_fold_rows(groups, folded, d, n - 1);
        let g = n - 1;
        let date = groups[g].date;
        let len = groups[g].entries@.len();
        let head = seq![VisibleRow::Date { group_index: g as usize }];
        let entries = Seq::new(
            len,
            |e: int| VisibleRow::Entry { group_index: g as usize, entry_index: e as usize },
        );
        Seq::filter_distributes_over_add(
            rows_spec(groups, folded, n - 1),
            group_rows(g, len, folded.contains(date)),
            p,
        );
        assert(head.filter(p) == head) by {
            lemma_filter_keeps_all(head, p);
        }
        if folded.contains(date) {
            assert(group_rows(g, len, true) =~= head);
        } else {
            assert(group_rows(g, len, false) =~= head + entries);
            Seq::filter_distributes_over_add(head, entries, p);
            if date == d {
                assert forall|i: int| 0 <= i < entries.len() implies !p(#[trigger] entries[i]) by {}
                lemma_filter_keeps_none(entries, p);
                assert(head + Seq::<VisibleRow>::empty() =~= head);
                assert(group_rows(g, len, true) =~= head);
            } else {
                assert forall|i: int| 0 <= i < entries.len() implies p(#[trigger] entries[i]) by {}
                lemma_filter_keeps_all(entries, p);
            }
        }
    }
}

/// Folding a day hides only its entries: the rows after folding day `d` are the rows before,
/// without the entry rows of that day, in the same order.
pub proof fn law_folding_hides_only_its_entries(groups: Seq<DateGroup>, folded: Set<i32>, d: i32)
    requires
        groups.len() <= usize::MAX,
    ensures
        rows_spec(groups, folded.insert(d), groups.len() as int) == rows_spec(
            groups,
            folded,
            groups.len() as int,
        ).filter(kept_when_folding(groups, d)),
{
    lemma_fold_rows(groups, folded, d, groups.len() as int);
}

// ---------------------------------------------------------------------------
// Selection, folding, browsing
/// How many entries the first `n` groups hold.
pub open spec fn entries_total(groups: Seq<DateGroup>, n: int) -> int
    decreases n,
{
    if n <= 0 {
        0
    } else {
        entries_total(groups, n - 1) + groups[n - 1].entries@.len()
    }
}

/// The entries of the first group of day `date`, or none.
pub open spec fn entries_of_day(groups: Seq<DateGroup>, date: i32, n: int) -> Seq<TilEntry>
    decreases n,
{
    if n <= 0 {
        Seq::empty()
    } else if groups[groups.len() - n].date == date {
        groups[groups.len() - n].entries@
    } else {
        entries_of_day(groups, date, n - 1)
    }
}

/// What the status line says after folding or unfolding a day.
pub open spec fn fold_status(date: i32, collapsed: bool) -> Seq<char> {
    day_text(date) + if collapsed {
        " 접음"@
    } else {
        " 펼침"@
    }
}

/// What a commit of the input line asks for.
pub enum InputCommand {
    /// Nothing was typed.
    Nothing,
    /// `out`: print the selected day and leave.
    Output,
    /// Record an entry with this content.
    Create(String),
}

/// Reads the input line: surrounding whitespace is dropped; nothing left asks for nothing,
/// `out` for the day's output, anything else records it.
pub fn read_input(input: &str) -> (res: InputCommand)
    ensures
        trim_spec(input@).len() == 0 ==> res is Nothing,
        trim_spec(input@) == "out"@ ==> res is Output,
        trim_spec(input@).len() > 0 && trim_spec(input@) != "out"@ ==> (res matches InputCommand::Create(c)
            && c@ == trim_spec(input@)),
{
    proof {
        reveal_strlit("out");
    }
    match validate_content(input) {
        Err(_) => InputCommand::Nothing,
        Ok(content) => if str_eq(content, "out") {
            InputCommand::Output
        } else {
            InputCommand::Create(String::from_str(content))
        },
    }
}

/// The message for an entry whose day cannot be had.
pub open spec fn undated_message(id: i64) -> Seq<char> {
    "#"@ + signed_decimal(id as int) + " 기록의 날짜를 변환할 수 없습니다"@
}

/// The message for an entry whose day cannot be had.
fn undated_text(id: i64) -> (res: String)
    ensures
        res@ == undated_message(id),
{
    let mut s = String::from_str("#");
    push_str(&mut s, signed_decimal_string(id).as_str());
    push_str(&mut s, " 기록의 날짜를 변환할 수 없습니다");
    s
}

/// Pairs entries with the local day they were recorded on; refused, naming an entry whose
/// time chrono cannot represent, when there is one. Which day an entry falls on depends on
/// the machine's time zone: it is the entry's UTC day or a day next to it. Times on the
/// first or last day chrono represents are left out (chrono panics there).
pub fn pair_with_days(entries: &Vec<TilEntry>) -> (res: Result<Vec<(i32, TilEntry)>, TilError>)
    requires
        forall|i: int| 0 <= i < entries@.len() ==> !at_range_edge(#[trigger] entries@[i].recorded_at),
    ensures
        res is Ok <==> forall|i: int| 0 <= i < entries@.len() ==> in_time_range(#[trigger] entries@[i].recorded_at),
        res matches Ok(v) ==> v@.len() == entries@.len() && forall|i: int|
            0 <= i < v@.len() ==> (#[trigger] v@[i]).1 == entries@[i] && valid_day(v@[i].0 as int)
                && utc_day(entries@[i].recorded_at) - 1 <= v@[i].0 <= utc_day(entries@[i].recorded_at) + 1,
        res matches Err(e) ==> (e matches TilError::InvalidInput(m) && exists|i: int|
            0 <= i < entries@.len() && !in_time_range(#[trigger] entries@[i].recorded_at) && m@
                == undated_message(entries@[i].id)),
{
    let mut out: Vec<(i32, TilEntry)> = Vec::new();
    for i in 0..entries.len()
        invariant
            forall|j: int| 0 <= j < entries@.len() ==> !at_range_edge(#[trigger] entries@[j].recorded_at),
            out@.len() == i,
            forall|k: int| 0 <= k < i ==> in_time_range(#[trigger] entries@[k].recorded_at),
            forall|k: int|
                0 <= k < i ==> (#[trigger] out@[k]).1 == entries@[k] && valid_day(out@[k].0 as int)
                    && utc_day(entries@[k].recorded_at) - 1 <= out@[k].0 <= utc_day(entries@[k].recorded_at) + 1,
    {
        assert(!at_range_edge(entries@[i as int].recorded_at));
        match entries[i].recorded_date() {
            Some(day) => out.push((day, copy_entry(&entries[i]))),
            None => {
                let message = undated_text(entries[i].id);
                assert(message@ == undated_message(entries@[i as int].id));
                assert(!in_time_range(entries@[i as int].recorded_at));
                return Err(TilError::InvalidInput(message));
            },
        }
    }
    Ok(out)
}

/// The selected day after folding or unfolding the selected day row's day (see
/// [`WeekView::set_selected_date_collapsed`]): the day is folded or unfolded, the rows are
/// rebuilt, and the day's row is selected.
pub open spec fn folded_day(old: WeekView, new: WeekView, date: i32, collapsed: bool) -> bool {
    &&& new.folded() == if collapsed {
        old.folded().insert(date)
    } else {
        old.folded().remove(date)
    }
    &&& new.date_groups == old.date_groups
    &&& new.rows_ok()
    &&& new.selected_date == old.selected_date
    &&& opt_usize(new.selection) == if row_position(
        new.date_groups@,
        new.visible_rows@,
        RowKey::Date(date),
    ) >= 0 {
        Some(row_position(new.date_groups@, new.visible_rows@, RowKey::Date(date)))
    } else {
        opt_usize(old.selection)
    }
}

impl WeekView {
    /// The selected row, when the selection points at one.
    pub open spec fn selected_row_spec(&self) -> Option<VisibleRow> {
        match self.selection {
            Some(i) => if i < self.visible_rows@.len() {
                Some(self.visible_rows@[i as int])
            } else {
                None
            },
            None => None,
        }
    }

    /// Every day of the view is one chrono can represent.
    pub open spec fn days_valid(&self) -> bool {
        forall|g: int|
            0 <= g < self.date_groups@.len() ==> valid_day((#[trigger] self.date_groups@[g]).date as int)
    }

    /// Moves the selection `offset` rows, wrapping around both ends, and follows its day.
    /// Nothing changes when there are no rows.
    pub fn move_selection(&mut self, offset: isize)
        requires
            old(self).selection.unwrap_or(0) <= isize::MAX,
            isize::MIN <= old(self).selection.unwrap_or(0) + offset <= isize::MAX,
        ensures
            old(self).visible_rows@.len() == 0 ==> *final(self) == *old(self),
            old(self).visible_rows@.len() > 0 ==> opt_usize(final(self).selection) == Some(
                (old(self).selection.unwrap_or(0) + offset) % (old(self).visible_rows@.len() as int),
            ),
            final(self).selected_date == date_after_selection(
                old(self).date_groups@,
                old(self).visible_rows@,
                opt_usize(final(self).selection),
                old(self).selected_date,
            ),
            final(self).date_groups == old(self).date_groups,
            final(self).visible_rows == old(self).visible_rows,
            final(self).collapsed_dates == old(self).collapsed_dates,
    {
        let n = self.visible_rows.len();
        if n == 0 {
            return;
        }
        let current: usize = match self.selection {
            Some(i) => i,
            None => 0,
        };
        let m = n as u128;
        let a = current as u128;
        let next: u128 = if offset >= 0 {
            (a + offset as u128) % m
        } else {
            let b: u128 = (-(offset as i128)) as u128;
            if a >= b {
                (a - b) % m
            } else {
                let q = (b - a) % m;
                proof {
                    lemma_negative_mod((b - a) as int, m as int);
                }
                if q == 0 {
                    0
                } else {
                    m - q
                }
            }
        };
        assert(next == (current + offset) % (n as int));
        self.selection = Some(next as usize);
        self.update_selected_date();
    }

    /// Folds (or unfolds) the selected day. On a day row the day is folded or unfolded and
    /// its row stays selected, and the status to show is returned. Folding from an entry row
    /// selects its day's row instead; unfolding from an entry row, or with nothing selected,
    /// changes nothing.
    pub fn set_selected_date_collapsed(&mut self, collapsed: bool) -> (status: Option<String>)
        requires
            old(self).rows_ok(),
            old(self).days_valid(),
            old(self).date_groups@.len() <= usize::MAX,
        ensures
            match old(self).selected_row_spec() {
                Some(VisibleRow::Date { group_index }) => {
                    let date = old(self).date_groups@[group_index as int].date;
                    &&& folded_day(*old(self), *final(self), date, collapsed)
                    &&& status matches Some(t) && t@ == fold_status(date, collapsed)
                },
                Some(VisibleRow::Entry { group_index, .. }) => {
                    let date = old(self).date_groups@[group_index as int].date;
                    let p = row_position(old(self).date_groups@, old(self).visible_rows@, RowKey::Date(date));
                    &&& status is None
                    &&& collapsed && p >= 0 ==> opt_usize(final(self).selection) == Some(p)
                        && final(self).selected_date == date_after_selection(
                        old(self).date_groups@,
                        old(self).visible_rows@,
                        Some(p),
                        old(self).selected_date,
                    )
                    &&& !(collapsed && p >= 0) ==> final(self).selection == old(self).selection
                        && final(self).selected_date == old(self).selected_date
                    &&& final(self).date_groups == old(self).date_groups
                    &&& final(self).visible_rows == old(self).visible_rows
                    &&& final(self).collapsed_dates == old(self).collapsed_dates
                },
                None => *final(self) == *old(self) && status is None,
            },
    {
        proof {
            lemma_rows_in_range(self.date_groups@, self.folded(), self.date_groups@.len() as int);
        }
        let row = match self.selected_row() {
            Some(r) => r,
            None => return None,
        };
        assert(row_in_range(self.date_groups@, row));
        match row {
            VisibleRow::Entry { group_index, .. } => {
                if collapsed {
                    let date = self.date_groups[group_index].date;
                    if let Some(index) = self.position_of(RowKey::Date(date)) {
                        self.selection = Some(index);
                        self.update_selected_date();
                    }
                }
                None
            },
            VisibleRow::Date { group_index } => {
                let date = self.date_groups[group_index].date;
                self.set_folded(date, collapsed);
                self.rebuild_visible_rows();
                if let Some(index) = self.position_of(RowKey::Date(date)) {
                    self.selection = Some(index);
                }
                let mut status = display_day(date);
                if collapsed {
                    push_str(&mut status, " 접음");
                } else {
                    push_str(&mut status, " 펼침");
                }
                Some(status)
            },
        }
    }

    /// On a day row, folds the day when it is unfolded and unfolds it when it is folded (see
    /// [`WeekView::set_selected_date_collapsed`]); on any other row nothing changes.
    pub fn toggle_selected_date(&mut self) -> (status: Option<String>)
        requires
            old(self).rows_ok(),
            old(self).days_valid(),
            old(self).date_groups@.len() <= usize::MAX,
        ensures
            match old(self).selected_row_spec() {
                Some(VisibleRow::Date { group_index }) => {
                    let date = old(self).date_groups@[group_index as int].date;
                    let collapsed = !old(self).folded().contains(date);
                    &&& folded_day(*old(self), *final(self), date, collapsed)
                    &&& status matches Some(t) && t@ == fold_status(date, collapsed)
                },
                _ => *final(self) == *old(self) && status is None,
            },
    {
        proof {
            lemma_rows_in_range(self.date_groups@, self.folded(), self.date_groups@.len() as int);
        }
        match self.selected_row() {
            Some(VisibleRow::Date { group_index }) => {
                assert(row_in_range(self.date_groups@, VisibleRow::Date { group_index }));
                let date = self.date_groups[group_index].date;
                let collapsed = !self.is_collapsed(date);
                self.set_selected_date_collapsed(collapsed)
            },
            _ => None,
        }
    }

    /// Unfolds a day (a day that gets an entry, or today, is shown unfolded).
    pub fn expand_date(&mut self, date: i32)
        ensures
            final(self).folded() == old(self).folded().remove(date),
            final(self).date_groups == old(self).date_groups,
            final(self).visible_rows == old(self).visible_rows,
            final(self).selection == old(self).selection,
            final(self).selected_date == old(self).selected_date,
    {
        self.set_folded(date, false);
    }

    /// The day to show after browsing `weeks` weeks: the same weekday of that week.
    pub fn browse_target(&self, weeks: i64) -> (res: i32)
        requires
            valid_day(self.selected_date as int),
            valid_day(self.selected_date - weekday(self.selected_date as int)),
            valid_day(self.selected_date - weekday(self.selected_date as int) + 7 * weeks),
            valid_day(self.selected_date + 7 * weeks),
        ensures
            res == self.selected_date + 7 * weeks,
            weekday(res as int) == weekday(self.selected_date as int),
    {
        let week = self.calendar_week();
        let day_offset = self.selected_date - week.start();
        let res = week.shifted(weeks).start() + day_offset;
        proof {
            lemma_weekday_shift(self.selected_date as int, weeks as int);
        }
        res
    }

    /// How many entries the week holds.
    pub fn week_entry_count(&self) -> (res: usize)
        requires
            entries_total(self.date_groups@, self.date_groups@.len() as int) <= usize::MAX,
        ensures
            res == entries_total(self.date_groups@, self.date_groups@.len() as int),
    {
        let mut total: usize = 0;
        for g in 0..self.date_groups.len()
            invariant
                total == entries_total(self.date_groups@, g as int),
                entries_total(self.date_groups@, self.date_groups@.len() as int) <= usize::MAX,
        {
            proof {
                lemma_entries_total_mono(self.date_groups@, g + 1, self.date_groups@.len() as int);
            }
            total = total + self.date_groups[g].entries.len();
        }
        total
    }

    /// The entries of the selected day: those of its group, or none when it is not shown.
    pub fn selected_date_entries(&self) -> (res: Vec<TilEntry>)
        ensures
            res@ == entries_of_day(self.date_groups@, self.selected_date, self.date_groups@.len() as int),
    {
        let n = self.date_groups.len();
        let mut g: usize = 0;
        while g < n
            invariant
                n == self.date_groups@.len(),
                g <= n,
                entries_of_day(self.date_groups@, self.selected_date, n as int) == entries_of_day(
                    self.date_groups@,
                    self.selected_date,
                    (n - g) as int,
                ),
            decreases n - g,
        {
            if self.date_groups[g].date == self.selected_date {
                let mut out: Vec<TilEntry> = Vec::new();
                let es = &self.date_groups[g].entries;
                for i in 0..es.len()
                    invariant
                        out@ == es@.take(i as int),
                {
                    out.push(copy_entry(&es[i]));
                    assert(out@ =~= es@.take(i + 1));
                }
                assert(es@.take(es@.len() as int) =~= es@);
                return out;
            }
            g += 1;
        }
        Vec::new()
    }

    /// The selected entry, when an entry row is selected.
    pub fn selected_entry(&self) -> (res: Option<TilEntry>)
        ensures
            match self.selected_row_spec() {
                Some(VisibleRow::Entry { group_index, entry_index }) => if group_index
                    < self.date_groups@.len() && entry_index
                    < self.date_groups@[group_index as int].entries@.len() {
                    res == Some(self.date_groups@[group_index as int].entries@[entry_index as int])
                } else {
                    res is None
                },
                _ => res is None,
            },
    {
        match self.selected_row() {
            Some(VisibleRow::Entry { group_index, entry_index }) => if group_index
                < self.date_groups.len() && entry_index < self.date_groups[group_index].entries.len() {
                Some(copy_entry(&self.date_groups[group_index].entries[entry_index]))
            } else {
                None
            },
            _ => None,
        }
    }

    /// The selected day as a nested Markdown list.
    pub fn formatted_output(&self) -> (res: String)
        requires
            valid_day(self.selected_date as int),
        ensures
            res@ == day_md(
                self.selected_date,
                entries_of_day(self.date_groups@, self.selected_date, self.date_groups@.len() as int),
            ),
    {
        let entries = self.selected_date_entries();
        format_day_as_markdown(self.selected_date, &entries)
    }

    /// The selected entry and the day `days` days from the selected day, to move it to.
    pub fn move_target(&self, days: i64) -> (res: Option<(i64, i32)>)
        requires
            valid_day(self.selected_date + days),
        ensures
            match self.selected_key() {
                Some(RowKey::Entry(id)) => res == Some((id, (self.selected_date + days) as i32)),
                _ => res is None,
            },
    {
        match self.selected_entry_id() {
            Some(id) => Some((id, (self.selected_date as i64 + days) as i32)),
            None => None,
        }
    }
}

/// The row index reached from `a` by stepping back `b` rows in `m` rows, wrapping.
proof fn lemma_negative_mod(y: int, m: int)
    requires
        m > 0,
        y > 0,
    ensures
        (-y) % m == if y % m == 0 {
            0
        } else {
            m - y % m
        },
{
    let q = y / m;
    let r = y % m;
    vstd::arithmetic::div_mod::lemma_fundamental_div_mod(y, m);
    assert(y == m * q + r);
    assert(0 <= r < m);
    if r == 0 {
        assert(-y == (-q) * m + 0) by (nonlinear_arith)
            requires y == m * q;
        vstd::arithmetic::div_mod::lemma_fundamental_div_mod_converse_mod(-y, m, -q, 0);
    } else {
        assert(-y == (-q - 1) * m + (m - r)) by (nonlinear_arith)
            requires y == m * q + r;
        vstd::arithmetic::div_mod::lemma_fundamental_div_mod_converse_mod(-y, m, -q - 1, m - r);
    }
}

/// Moving by whole weeks keeps the weekday.
pub proof fn lemma_weekday_shift(day: int, weeks: int)
    ensures
        weekday(day + 7 * weeks) == weekday(day),
{
    let r = weekday(day);
    let q = (day - 1) / 7;
    vstd::arithmetic::div_mod::lemma_fundamental_div_mod(day - 1, 7);
    vstd::arithmetic::div_mod::lemma_fundamental_div_mod_converse_mod(day - 1 + 7 * weeks, 7, q + weeks, r);
}

/// Browsing keeps the weekday: the day reached by browsing `weeks` weeks from `day` is the
/// same weekday.
pub proof fn law_browsing_keeps_the_weekday(day: int, weeks: int)
    ensures
        weekday(day + 7 * weeks) == weekday(day),
{
    lemma_weekday_shift(day, weeks);
}

/// The entries of the first groups never outnumber those of more groups.
proof fn lemma_entries_total_mono(groups: Seq<DateGroup>, a: int, b: int)
    requires
        0 <= a <= b,
    ensures
        entries_total(groups, a) <= entries_total(groups, b),
    decreases b - a,
{
    if a < b {
        lemma_entries_total_mono(groups, a, b - 1);
    }
}


// ---------------------------------------------------------------------------
// Edits and undo
/// The content of the first entry with `id` in `es`.
pub open spec fn content_in(es: Seq<TilEntry>, id: i64) -> Option<Seq<char>>
    decreases es.len(),
{
    if es.len() == 0 {
        None
    } else if es[0].id == id {
        Some(es[0].content@)
    } else {
        content_in(es.drop_first(), id)
    }
}

/// The content of the first entry with `id` in the last `n` groups, group by group.
pub open spec fn content_of(groups: Seq<DateGroup>, id: i64, n: int) -> Option<Seq<char>>
    decreases n,
{
    if n <= 0 {
        None
    } else {
        match content_in(groups[groups.len() - n].entries@, id) {
            Some(c) => Some(c),
            None => content_of(groups, id, n - 1),
        }
    }
}

/// The content of the first entry with `id` in `es`.
fn content_in_exec(es: &Vec<TilEntry>, id: i64) -> (res: Option<String>)
    ensures
        match (res, content_in(es@, id)) {
            (Some(c), Some(d)) => c@ == d,
            (None, None) => true,
            _ => false,
        },
{
    let mut i: usize = 0;
    assert(es@.skip(0) =~= es@);
    while i < es.len()
        invariant
            i <= es.len(),
            content_in(es@, id) == content_in(es@.skip(i as int), id),
        decreases es.len() - i,
    {
        assert(es@.skip(i as int).drop_first() =~= es@.skip(i + 1));
        if es[i].id == id {
            return Some(es[i].content.clone());
        }
        i += 1;
    }
    None
}

/// The message of an undo, with how many changes can still be undone.
pub open spec fn undo_status_text(remaining: nat) -> Seq<char> {
    "되돌림 (남은 "@ + decimal(remaining) + "개)"@
}

/// The message of an undo, with how many changes can still be undone.
pub fn undo_status(remaining: usize) -> (res: String)
    ensures
        res@ == undo_status_text(remaining as nat),
{
    let mut s = String::from_str("되돌림 (남은 ");
    push_str(&mut s, decimal_string(remaining as u64).as_str());
    push_str(&mut s, "개)");
    s
}

impl UndoOperation {
    /// What to select after undoing, and the day to show: the selected day after undoing an
    /// added entry, the entry itself otherwise, and a moved entry's former day.
    pub fn focus_after(&self, selected_date: i32) -> (res: (RowKey, i32))
        ensures
            res == match *self {
                UndoOperation::DeleteCreated { .. } => (RowKey::Date(selected_date), selected_date),
                UndoOperation::RestoreDeleted { entry } => (RowKey::Entry(entry.id), selected_date),
                UndoOperation::RestoreContent { entry_id, .. } => (RowKey::Entry(entry_id), selected_date),
                UndoOperation::RestoreRecordedAt { entry_id, date_to_show, .. } => (
                    RowKey::Entry(entry_id),
                    date_to_show,
                ),
            },
    {
        match self {
            UndoOperation::DeleteCreated { .. } => (RowKey::Date(selected_date), selected_date),
            UndoOperation::RestoreDeleted { entry } => (RowKey::Entry(entry.id), selected_date),
            UndoOperation::RestoreContent { entry_id, .. } => (RowKey::Entry(*entry_id), selected_date),
            UndoOperation::RestoreRecordedAt { entry_id, date_to_show, .. } => (
                RowKey::Entry(*entry_id),
                *date_to_show,
            ),
        }
    }
}

impl WeekView {
    /// The content of the first entry with `id` on the week (group by group); refused when
    /// the week shows no such entry.
    pub fn entry_content(&self, id: i64) -> (res: Result<String, TilError>)
        ensures
            match (res, content_of(self.date_groups@, id, self.date_groups@.len() as int)) {
                (Ok(c), Some(d)) => c@ == d,
                (Err(e), None) => e == TilError::EntryNotFound(id),
                _ => false,
            },
    {
        let n = self.date_groups.len();
        let mut g: usize = 0;
        while g < n
            invariant
                n == self.date_groups@.len(),
                g <= n,
                content_of(self.date_groups@, id, n as int) == content_of(
                    self.date_groups@,
                    id,
                    (n - g) as int,
                ),
            decreases n - g,
        {
            match content_in_exec(&self.date_groups[g].entries, id) {
                Some(c) => return Ok(c),
                None => {},
            }
            g += 1;
        }
        Err(TilError::EntryNotFound(id))
    }
}

} // verus!
