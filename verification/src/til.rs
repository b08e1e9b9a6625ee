//! Today-I-learned entries: content validation, errors, and the nested Markdown output of a day.
use chrono::Datelike;
use vstd::prelude::*;

use crate::calendar::{
    at_range_edge, clock_at, clock_text, day_text, display_day, in_time_range, local_day, local_day_of,
    min_day, zone_offset,
    utc_day, valid_day,
};
use crate::review::{lowercase, to_lowercase};
use crate::text::{
    chars_of, is_whitespace, is_ws, lemma_skip_ws_len, lines, lines_of, push_chars, push_str,
    signed_decimal, signed_decimal_string, skip_ws, starts_with, starts_with_exec, str_eq, tail_of,
};

verus! {

/// A recorded entry: its id, its content, and when it was recorded (Unix seconds).
#[derive(Debug, Clone, PartialEq, Eq)]
pub struct TilEntry {
    pub id: i64,
    pub content: String,
    pub recorded_at: i64,
}

impl TilEntry {
    /// The local time of day it was recorded, `HH:MM` (`"?"` when chrono cannot represent
    /// the time); see [`clock_text`].
    pub fn time_label(&self) -> (res: String)
        ensures
            !in_time_range(self.recorded_at) ==> res@ == "?"@,
            in_time_range(self.recorded_at) ==> exists|offset: int|
                zone_offset(offset) && res@ == #[trigger] clock_at(self.recorded_at, offset),
    {
        clock_text(self.recorded_at)
    }

    /// The local day it was recorded on: there is one exactly when chrono can represent the
    /// time, and it is the day at some offset of less than a day from UTC, as the machine's
    /// time zone has it. Times on the first or last day chrono represents are left out
    /// (chrono panics there).
    pub fn recorded_date(&self) -> (res: Option<i32>)
        requires
            !at_range_edge(self.recorded_at),
        ensures
            res is Some <==> in_time_range(self.recorded_at),
            res matches Some(n) ==> valid_day(n as int) && utc_day(self.recorded_at) - 1 <= n <= utc_day(
                self.recorded_at,
            ) + 1 && exists|offset: int|
                zone_offset(offset) && n == #[trigger] local_day(self.recorded_at, offset),
    {
        local_day_of(self.recorded_at)
    }
}

/// Why a journal operation failed.
#[derive(Debug, Clone, PartialEq, Eq)]
pub enum TilError {
    /// Input that is refused, with the message to show.
    InvalidInput(String),
    /// No entry has this id.
    EntryNotFound(i64),
}

/// The message of a journal error.
pub open spec fn til_error_message(e: TilError) -> Seq<char> {
    match e {
        TilError::InvalidInput(m) => m@,
        TilError::EntryNotFound(id) => "#"@ + signed_decimal(id as int) + " TIL 기록을 찾을 수 없습니다"@,
    }
}

impl TilError {
    /// The message shown to the user.
    pub fn message(&self) -> (res: String)
        ensures
            res@ == til_error_message(*self),
    {
        match self {
            TilError::InvalidInput(m) => m.clone(),
            TilError::EntryNotFound(id) => {
                let mut s = String::from_str("#");
                push_str(&mut s, signed_decimal_string(*id).as_str());
                push_str(&mut s, " TIL 기록을 찾을 수 없습니다");
                s
            },
        }
    }
}

/// `s` without its trailing whitespace.
pub open spec fn trim_end_ws(s: Seq<char>) -> Seq<char>
    decreases s.len(),
{
    if s.len() > 0 && is_ws(s.last()) {
        trim_end_ws(s.drop_last())
    } else {
        s
    }
}

/// `s` without leading and trailing whitespace (`str::trim`).
pub open spec fn trim_spec(s: Seq<char>) -> Seq<char> {
    trim_end_ws(skip_ws(s))
}

/// The message for empty content.
pub open spec fn empty_content_message() -> Seq<char> {
    "기록 내용은 비워 둘 수 없습니다"@
}

/// The content of an entry: the input without surrounding whitespace, refused when nothing
/// is left.
pub fn validate_content(content: &str) -> (res: Result<&str, TilError>)
    ensures
        trim_spec(content@).len() == 0 ==> (res matches Err(TilError::InvalidInput(m)) && m@
            == empty_content_message()),
        trim_spec(content@).len() > 0 ==> (res matches Ok(s) && s@ == trim_spec(content@)),
{
    let cs = chars_of(content);
    let mut start: usize = 0;
    assert(cs@.subrange(0, cs.len() as int) =~= cs@);
    while start < cs.len() && is_whitespace(cs[start])
        invariant
            start <= cs.len(),
            cs@ == content@,
            skip_ws(content@) == skip_ws(cs@.subrange(start as int, cs.len() as int)),
        decreases cs.len() - start,
    {
        assert(cs@.subrange(start as int, cs.len() as int).drop_first() =~= cs@.subrange(
            start + 1,
            cs.len() as int,
        ));
        start += 1;
    }
    assert(skip_ws(content@) == cs@.subrange(start as int, cs.len() as int));
    let mut end: usize = cs.len();
    while end > start && is_whitespace(cs[end - 1])
        invariant
            start <= end <= cs.len(),
            cs@ == content@,
            trim_spec(content@) == trim_end_ws(cs@.subrange(start as int, end as int)),
        decreases end,
    {
        assert(cs@.subrange(start as int, end as int).drop_last() =~= cs@.subrange(
            start as int,
            end - 1,
        ));
        end -= 1;
    }
    assert(trim_spec(content@) == cs@.subrange(start as int, end as int));
    if start == end {
        return Err(TilError::InvalidInput(String::from_str("기록 내용은 비워 둘 수 없습니다")));
    }
    Ok(content.substring_char(start, end))
}

// ---------------------------------------------------------------------------
// Markdown output
/// A line without its trailing carriage returns.
pub open spec fn trim_cr(l: Seq<char>) -> Seq<char>
    decreases l.len(),
{
    if l.len() > 0 && l.last() == '\r' {
        trim_cr(l.drop_last())
    } else {
        l
    }
}

/// A first line without a leading `"- "`.
pub open spec fn strip_dash(l: Seq<char>) -> Seq<char> {
    if starts_with(l, "- "@) {
        l.subrange(2, l.len() as int)
    } else {
        l
    }
}

/// Continuation lines, each indented under its entry.
pub open spec fn continuation_md(ls: Seq<Seq<char>>) -> Seq<char>
    decreases ls.len(),
{
    if ls.len() == 0 {
        Seq::empty()
    } else {
        continuation_md(ls.drop_last()) + "    "@ + trim_cr(ls.last()) + "\n"@
    }
}

/// One entry as a second-level item: its first line (without a leading `"- "`) as the item,
/// its other lines as the item's continuation.
pub open spec fn entry_md(content: Seq<char>) -> Seq<char> {
    let ls = lines_of(content);
    if ls.len() == 0 {
        "  - "@ + "\n"@
    } else {
        "  - "@ + strip_dash(ls[0]) + "\n"@ + continuation_md(ls.drop_first())
    }
}

/// The entries as second-level items, in order.
pub open spec fn entries_md(es: Seq<TilEntry>) -> Seq<char>
    decreases es.len(),
{
    if es.len() == 0 {
        Seq::empty()
    } else {
        entries_md(es.drop_last()) + entry_md(es.last().content@)
    }
}

/// A day as a nested Markdown list: the date as the first-level item and each entry below
/// it, or a placeholder item when there is none.
pub open spec fn day_md(date: i32, es: Seq<TilEntry>) -> Seq<char> {
    "- "@ + day_text(date) + "\n"@ + if es.len() == 0 {
        "  - (기록 없음)\n"@
    } else {
        entries_md(es)
    }
}

/// A line without its trailing carriage returns.
fn trim_cr_exec(l: &Vec<char>) -> (res: usize)
    ensures
        res <= l.len(),
        trim_cr(l@) == l@.subrange(0, res as int),
{
    let mut end = l.len();
    assert(l@.subrange(0, end as int) =~= l@);
    while end > 0 && l[end - 1] == '\r'
        invariant
            end <= l.len(),
            trim_cr(l@) == trim_cr(l@.subrange(0, end as int)),
        decreases end,
    {
        assert(l@.subrange(0, end as int).drop_last() =~= l@.subrange(0, end - 1));
        end -= 1;
    }
    end
}

/// Appends one entry as a second-level item.
fn push_entry(out: &mut String, content: &String)
    ensures
        final(out)@ == old(out)@ + entry_md(content@),
{
    let cs = chars_of(content.as_str());
    let ls = lines(&cs);
    let ghost l = lines_of(content@);
    push_str(out, "  - ");
    if ls.len() == 0 {
        push_str(out, "\n");
        return;
    }
    let first = &ls[0];
    proof {
        reveal_strlit("- ");
    }
    if starts_with_exec(first, &chars_of("- ")) {
        let rest = tail_of(first, 2);
        push_chars(out, &rest);
    } else {
        push_chars(out, first);
    }
    push_str(out, "\n");
    let ghost head = out@;
    let ghost tail = l.drop_first();
    let mut i: usize = 1;
    assert(tail.take(0) =~= Seq::<Seq<char>>::empty());
    while i < ls.len()
        invariant
            1 <= i <= ls@.len(),
            ls@.len() == l.len(),
            tail == l.drop_first(),
            forall|k: int| 0 <= k < ls@.len() ==> #[trigger] ls@[k]@ == l[k],
            out@ == head + continuation_md(tail.take(i - 1)),
        decreases ls@.len() - i,
    {
        let line = &ls[i];
        let end = trim_cr_exec(line);
        push_str(out, "    ");
        let kept = crate::text::slice_of(line, 0, end);
        push_chars(out, &kept);
        push_str(out, "\n");
        assert(tail.take(i as int).drop_last() =~= tail.take(i - 1));
        assert(tail.take(i as int).last() == l[i as int]);
        i += 1;
    }
    assert(tail.take(ls.len() - 1) =~= tail);
}

/// Formats a day and its entries as a nested Markdown list (see [`day_md`]).
pub fn format_day_as_markdown(date: i32, entries: &Vec<TilEntry>) -> (res: String)
    requires
        valid_day(date as int),
    ensures
        res@ == day_md(date, entries@),
{
    let mut out = String::from_str("- ");
    push_str(&mut out, display_day(date).as_str());
    push_str(&mut out, "\n");
    if entries.len() == 0 {
        push_str(&mut out, "  - (기록 없음)\n");
        return out;
    }
    let ghost head = out@;
    for i in 0..entries.len()
        invariant
            out@ == head + entries_md(entries@.take(i as int)),
    {
        push_entry(&mut out, &entries[i].content);
        assert(entries@.take(i + 1).drop_last() =~= entries@.take(i as int));
    }
    assert(entries@.take(entries.len() as int) =~= entries@);
    out
}


/// A store change that touched no row means the entry does not exist.
pub fn ensure_entry_changed(id: i64, changed_rows: usize) -> (res: Result<(), TilError>)
    ensures
        changed_rows == 0 ==> res == Err::<(), TilError>(TilError::EntryNotFound(id)),
        changed_rows > 0 ==> res is Ok,
{
    if changed_rows == 0 {
        return Err(TilError::EntryNotFound(id));
    }
    Ok(())
}

// ---------------------------------------------------------------------------
// Dates typed by the user
/// The day a `YYYY-MM-DD` text names, when chrono reads it as one.
pub uninterp spec fn ymd_day(s: Seq<char>) -> Option<i32>;

/// chrono: `NaiveDate::parse_from_str(value, "%Y-%m-%d")` as a day number. Stated: a day it
/// gives is a valid one; which day is only named.
#[verifier::external_body]
fn parse_ymd(value: &str) -> (res: Option<i32>)
    ensures
        res == ymd_day(value@),
        res matches Some(n) ==> valid_day(n as int),
{
    chrono::NaiveDate::parse_from_str(value, "%Y-%m-%d").ok().map(|d| d.num_days_from_ce())
}

/// chrono: today's date in the local time zone, as a day number. It depends on the clock and
/// the time zone; stated only that it is a valid day.
#[verifier::external_body]
fn local_today() -> (res: i32)
    ensures
        valid_day(res as int),
{
    chrono::Local::now().date_naive().num_days_from_ce()
}

/// The message for a date that cannot be read.
pub open spec fn bad_date_message() -> Seq<char> {
    "날짜는 today, yesterday 또는 YYYY-MM-DD로 입력하세요"@
}

/// The words that name a day relative to today.
pub open spec fn day_keyword(key: Seq<char>) -> bool {
    key == "today"@ || key == "오늘"@ || key == "yesterday"@ || key == "어제"@
}

/// The day a typed date names, relative to `today`: `today`/`오늘`, `yesterday`/`어제` (none
/// on the first day chrono represents), or a `YYYY-MM-DD` date, read without surrounding
/// whitespace and ignoring case.
pub open spec fn date_named(input: Seq<char>, today: i32) -> Option<int> {
    let key = lowercase(trim_spec(input));
    if key == "today"@ || key == "오늘"@ {
        Some(today as int)
    } else if key == "yesterday"@ || key == "어제"@ {
        if today - 1 >= min_day() {
            Some(today - 1)
        } else {
            None
        }
    } else {
        match ymd_day(key) {
            Some(n) => Some(n as int),
            None => None,
        }
    }
}

/// The day a typed date names, relative to `today` (see [`date_named`]); a day it gives is
/// a valid one.
pub fn parse_date_on(input: &str, today: i32) -> (res: Result<i32, TilError>)
    requires
        valid_day(today as int),
    ensures
        match res {
            Ok(n) => date_named(input@, today) == Some(n as int) && valid_day(n as int),
            Err(TilError::InvalidInput(m)) => date_named(input@, today) is None && m@
                == bad_date_message(),
            Err(_) => false,
        },
{
    let trimmed = match validate_content(input) {
        Ok(t) => String::from_str(t),
        Err(_) => String::new(),
    };
    assert(trimmed@ == trim_spec(input@)) by {
        if trim_spec(input@).len() == 0 {
            assert(trim_spec(input@) =~= Seq::<char>::empty());
        }
    }
    let key = to_lowercase(trimmed.as_str());
    let k = key.as_str();
    proof {
        reveal_strlit("today");
        reveal_strlit("오늘");
        reveal_strlit("yesterday");
        reveal_strlit("어제");
        reveal_strlit("날짜는 today, yesterday 또는 YYYY-MM-DD로 입력하세요");
    }
    if str_eq(k, "today") || str_eq(k, "오늘") {
        Ok(today)
    } else if str_eq(k, "yesterday") || str_eq(k, "어제") {
        if today > -95746129 {
            Ok(today - 1)
        } else {
            Err(TilError::InvalidInput(String::from_str("날짜는 today, yesterday 또는 YYYY-MM-DD로 입력하세요")))
        }
    } else {
        match parse_ymd(k) {
            Some(n) => Ok(n),
            None => Err(
                TilError::InvalidInput(String::from_str("날짜는 today, yesterday 또는 YYYY-MM-DD로 입력하세요")),
            ),
        }
    }
}

/// The day a typed date names, relative to the local date of today (see [`date_named`]).
/// Today is read from the clock, so a day named relative to it is stated only as the day it
/// names relative to some valid day; a `YYYY-MM-DD` date is read the same on every day, and
/// `today` is always read.
pub fn parse_date(input: &str) -> (res: Result<i32, TilError>)
    ensures
        res matches Ok(n) ==> valid_day(n as int) && exists|today: i32|
            valid_day(today as int) && #[trigger] date_named(input@, today) == Some(n as int),
        res matches Err(e) ==> (e matches TilError::InvalidInput(m) && m@ == bad_date_message())
            && exists|today: i32| valid_day(today as int) && #[trigger] date_named(input@, today) is None,
        !day_keyword(lowercase(trim_spec(input@))) ==> match ymd_day(lowercase(trim_spec(input@))) {
            Some(n) => res == Ok::<i32, TilError>(n),
            None => res is Err,
        },
        (lowercase(trim_spec(input@)) == "today"@ || lowercase(trim_spec(input@)) == "오늘"@) ==> res is Ok,
{
    let today = local_today();
    let res = parse_date_on(input, today);
    assert(res matches Ok(n) ==> date_named(input@, today) == Some(n as int));
    assert(res is Err ==> date_named(input@, today) is None);
    res
}

} // verus!
