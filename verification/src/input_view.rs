//! Where the cursor of a multi-line text input is drawn, and how far the input scrolls so
//! that the cursor stays inside its box.
use vstd::prelude::*;

use crate::text::{chars_of, string_from_chars};
use crate::tokens::{display_width, str_width};

verus! {

/// A rectangle of the terminal: its top-left corner and its size, in cells.
#[derive(Clone, Copy, Debug, PartialEq, Eq, Structural)]
pub struct Area {
    pub x: u16,
    pub y: u16,
    pub width: u16,
    pub height: u16,
}

/// How many times `c` occurs in `s`.
pub open spec fn count_char(s: Seq<char>, c: char) -> int
    decreases s.len(),
{
    if s.len() == 0 {
        0
    } else {
        count_char(s.drop_last(), c) + if s.last() == c {
            1int
        } else {
            0
        }
    }
}

/// The text after the last `c` (all of it when there is none).
pub open spec fn after_last(s: Seq<char>, c: char) -> Seq<char>
    decreases s.len(),
{
    if s.len() == 0 {
        s
    } else if s.last() == c {
        Seq::empty()
    } else {
        after_last(s.drop_last(), c).push(s.last())
    }
}

/// The text before the cursor (the cursor counts characters).
pub open spec fn before_cursor(value: Seq<char>, cursor: int) -> Seq<char> {
    if cursor < value.len() {
        value.take(cursor)
    } else {
        value
    }
}

/// The cursor's row (the newlines before it) and column (the displayed width of its line
/// up to it).
pub open spec fn input_position_spec(value: Seq<char>, cursor: int) -> (int, int) {
    let before = before_cursor(value, cursor);
    (count_char(before, '\n'), display_width(after_last(before, '\n')) as int)
}

/// The cursor's row and column (see [`input_position_spec`]).
pub fn input_position(value: &str, cursor: usize) -> (res: (usize, usize))
    ensures
        res.0 == input_position_spec(value@, cursor as int).0,
        res.1 == input_position_spec(value@, cursor as int).1,
{
    let cs = chars_of(value);
    let end = if cursor < cs.len() {
        cursor
    } else {
        cs.len()
    };
    let ghost before = before_cursor(value@, cursor as int);
    assert(before =~= cs@.take(end as int));
    let mut row: usize = 0;
    let mut line: Vec<char> = Vec::new();
    for i in 0..end
        invariant
            end <= cs@.len(),
            before == cs@.take(end as int),
            row == count_char(cs@.take(i as int), '\n'),
            row <= i,
            line@ == after_last(cs@.take(i as int), '\n'),
    {
        assert(cs@.take(i + 1).drop_last() =~= cs@.take(i as int));
        if cs[i] == '\n' {
            row = row + 1;
            line = Vec::new();
        } else {
            line.push(cs[i]);
        }
    }
    let text = string_from_chars(&line);
    (row, str_width(text.as_str()))
}

/// A size without its border, at least one.
pub open spec fn inner(size: u16) -> int {
    if size > 3 {
        size - 2
    } else {
        1
    }
}

/// How far a box must scroll so that a position stays inside: past the inner size, by the
/// overflow; as the terminal takes it, in 16 bits.
pub open spec fn scroll_for(position: int, size: u16) -> u16 {
    (if position > inner(size) - 1 {
        position - (inner(size) - 1)
    } else {
        0
    }) as u16
}

/// How far an input box scrolls down and right to keep the cursor visible.
pub fn input_scroll(area: Area, value: &str, cursor: usize) -> (res: (u16, u16))
    ensures
        res.0 == scroll_for(input_position_spec(value@, cursor as int).0, area.height),
        res.1 == scroll_for(input_position_spec(value@, cursor as int).1, area.width),
{
    let (row, column) = input_position(value, cursor);
    let inner_height = {
        let h = area.height.saturating_sub(2) as usize;
        if h < 1 {
            1
        } else {
            h
        }
    };
    let inner_width = {
        let w = area.width.saturating_sub(2) as usize;
        if w < 1 {
            1
        } else {
            w
        }
    };
    let vertical = row.saturating_sub(inner_height - 1);
    let horizontal = column.saturating_sub(inner_width - 1);
    (vertical as u16, horizontal as u16)
}

/// Where the cursor is drawn along one axis: inside the border after the scrolled-away part,
/// at most the last inner cell (with the far edge saturating at the screen's end).
pub open spec fn cursor_at(start: u16, size: u16, position: int, scroll: u16) -> int {
    let shown = (if position > scroll {
        position - scroll
    } else {
        0
    }) as u16;
    let far = if start + size > u16::MAX {
        u16::MAX as int
    } else {
        start + size
    };
    let limit = if far > 2 {
        far - 2
    } else {
        0
    };
    if start + 1 + shown < limit {
        start + 1 + shown
    } else {
        limit
    }
}

/// Where the cursor of an input box is drawn (column, row).
pub fn input_cursor(area: Area, value: &str, cursor: usize) -> (res: (u16, u16))
    ensures
        ({
            let (row, column) = input_position_spec(value@, cursor as int);
            &&& res.0 == cursor_at(
                area.x,
                area.width,
                column,
                scroll_for(column, area.width),
            )
            &&& res.1 == cursor_at(area.y, area.height, row, scroll_for(row, area.height))
        }),
{
    let (row, column) = input_position(value, cursor);
    let (vertical, horizontal) = input_scroll(area, value, cursor);
    let x = place(area.x, area.width, column, horizontal);
    let y = place(area.y, area.height, row, vertical);
    (x, y)
}

/// [`cursor_at`] along one axis.
fn place(start: u16, size: u16, position: usize, scroll: u16) -> (res: u16)
    ensures
        res == cursor_at(start, size, position as int, scroll),
{
    let shown = position.saturating_sub(scroll as usize) as u16;
    let far = start.saturating_add(size);
    let limit = far.saturating_sub(2);
    let at = start as u32 + 1 + shown as u32;
    if at < limit as u32 {
        at as u16
    } else {
        limit
    }
}

} // verus!
