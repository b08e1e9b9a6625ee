//! The key bindings of the journal: which action a key press asks for in each mode.
use vstd::prelude::*;

verus! {

/// Whether the journal is taking input or commands.
#[derive(Clone, Copy, PartialEq, Eq, Debug, Structural)]
pub enum Mode {
    Insert,
    Normal,
}

/// The key of a key press.
#[derive(Clone, Copy, PartialEq, Eq, Debug, Structural)]
pub enum KeyCode {
    Backspace,
    Delete,
    Left,
    Right,
    Up,
    Down,
    Home,
    End,
    Enter,
    Esc,
    Char(char),
    Other,
}

/// A key press: the key and whether Shift and Control were held.
#[derive(Clone, Copy, PartialEq, Eq, Debug, Structural)]
pub struct Key {
    pub code: KeyCode,
    pub shift: bool,
    pub ctrl: bool,
}

/// An edit of a text input.
#[derive(Clone, Copy, PartialEq, Eq, Debug, Structural)]
pub enum EditRequest {
    InsertChar(char),
    DeletePrevChar,
    DeleteNextChar,
    DeletePrevWord,
    DeleteLine,
    DeleteTillEnd,
    GoToPrevChar,
    GoToNextChar,
    GoToPrevWord,
    GoToNextWord,
    GoToStart,
    GoToEnd,
}

/// What the user asked for.
#[derive(Clone, Copy, PartialEq, Eq, Debug, Structural)]
pub enum Action {
    Quit,
    Output,
    EnterInsert,
    EnterNormal,
    Input(EditRequest),
    CommitInsert,
    Select(isize),
    ToggleCollapse,
    BrowseWeek(i64),
    MoveEntryByDays(i64),
    BrowseToday,
    OpenEdit,
    Delete,
    Undo,
    Yank,
    PopupInput(EditRequest),
    PopupCommit,
    PopupCancel,
}

/// The text edit a key asks for: Control chords edit by word or line, other keys by
/// character.
pub open spec fn edit_request_spec(key: Key) -> Option<EditRequest> {
    let ctrl = key.ctrl;
    match key.code {
        KeyCode::Backspace => Some(
            if ctrl {
                EditRequest::DeletePrevWord
            } else {
                EditRequest::DeletePrevChar
            },
        ),
        KeyCode::Delete => Some(EditRequest::DeleteNextChar),
        KeyCode::Left => Some(
            if ctrl {
                EditRequest::GoToPrevWord
            } else {
                EditRequest::GoToPrevChar
            },
        ),
        KeyCode::Right => Some(
            if ctrl {
                EditRequest::GoToNextWord
            } else {
                EditRequest::GoToNextChar
            },
        ),
        KeyCode::Home => Some(EditRequest::GoToStart),
        KeyCode::End => Some(EditRequest::GoToEnd),
        KeyCode::Char(c) => if ctrl {
            if c == 'w' {
                Some(EditRequest::DeletePrevWord)
            } else if c == 'u' {
                Some(EditRequest::DeleteLine)
            } else if c == 'a' {
                Some(EditRequest::GoToStart)
            } else if c == 'e' {
                Some(EditRequest::GoToEnd)
            } else if c == 'k' {
                Some(EditRequest::DeleteTillEnd)
            } else {
                None
            }
        } else {
            Some(EditRequest::InsertChar(c))
        },
        _ => None,
    }
}

/// The text edit a key asks for (see [`edit_request_spec`]).
pub fn edit_request(key: Key) -> (res: Option<EditRequest>)
    ensures
        res == edit_request_spec(key),
{
    let ctrl = key.ctrl;
    match key.code {
        KeyCode::Backspace => Some(
            if ctrl {
                EditRequest::DeletePrevWord
            } else {
                EditRequest::DeletePrevChar
            },
        ),
        KeyCode::Delete => Some(EditRequest::DeleteNextChar),
        KeyCode::Left => Some(
            if ctrl {
                EditRequest::GoToPrevWord
            } else {
                EditRequest::GoToPrevChar
            },
        ),
        KeyCode::Right => Some(
            if ctrl {
                EditRequest::GoToNextWord
            } else {
                EditRequest::GoToNextChar
            },
        ),
        KeyCode::Home => Some(EditRequest::GoToStart),
        KeyCode::End => Some(EditRequest::GoToEnd),
        KeyCode::Char(c) => if ctrl {
            if c == 'w' {
                Some(EditRequest::DeletePrevWord)
            } else if c == 'u' {
                Some(EditRequest::DeleteLine)
            } else if c == 'a' {
                Some(EditRequest::GoToStart)
            } else if c == 'e' {
                Some(EditRequest::GoToEnd)
            } else if c == 'k' {
                Some(EditRequest::DeleteTillEnd)
            } else {
                None
            }
        } else {
            Some(EditRequest::InsertChar(c))
        },
        _ => None,
    }
}

/// The action of a key press. With the edit dialog open, Esc cancels, Enter saves,
/// Shift+Enter inserts a newline, and other keys edit. In Insert mode, Enter adds the input as
/// an entry, Shift+Enter inserts a newline, Up/Down select, and Left/Right browse weeks while
/// the input is empty. In Normal mode single letters run commands.
pub open spec fn map_key_spec(dialog_open: bool, mode: Mode, input_empty: bool, key: Key) -> Option<
    Action,
> {
    let shift = key.shift;
    if dialog_open {
        match key.code {
            KeyCode::Esc => Some(Action::PopupCancel),
            KeyCode::Enter => Some(
                if shift {
                    Action::PopupInput(EditRequest::InsertChar('\n'))
                } else {
                    Action::PopupCommit
                },
            ),
            _ => match edit_request_spec(key) {
                Some(r) => Some(Action::PopupInput(r)),
                None => None,
            },
        }
    } else {
        match mode {
            Mode::Insert => match key.code {
                KeyCode::Esc => Some(Action::EnterNormal),
                KeyCode::Enter => Some(
                    if shift {
                        Action::Input(EditRequest::InsertChar('\n'))
                    } else {
                        Action::CommitInsert
                    },
                ),
                KeyCode::Up => Some(Action::Select(-1isize)),
                KeyCode::Down => Some(Action::Select(1isize)),
                KeyCode::Left if input_empty => Some(Action::BrowseWeek(-1i64)),
                KeyCode::Right if input_empty => Some(Action::BrowseWeek(1i64)),
                _ => match edit_request_spec(key) {
                    Some(r) => Some(Action::Input(r)),
                    None => None,
                },
            },
            Mode::Normal => match key.code {
                KeyCode::Char(c) => if c == 'q' {
                    Some(Action::Quit)
                } else if c == 'o' {
                    Some(Action::Output)
                } else if c == 'i' || c == 'a' {
                    Some(Action::EnterInsert)
                } else if c == 'e' {
                    Some(Action::OpenEdit)
                } else if c == 'd' {
                    Some(Action::Delete)
                } else if c == 'u' {
                    Some(Action::Undo)
                } else if c == 'y' {
                    Some(Action::Yank)
                } else if c == 't' {
                    Some(Action::BrowseToday)
                } else if c == ' ' {
                    Some(Action::ToggleCollapse)
                } else if c == 'k' {
                    Some(Action::Select(-1isize))
                } else if c == 'j' {
                    Some(Action::Select(1isize))
                } else if c == 'h' {
                    Some(Action::BrowseWeek(-1i64))
                } else if c == 'l' {
                    Some(Action::BrowseWeek(1i64))
                } else {
                    None
                },
                KeyCode::Esc => Some(Action::EnterInsert),
                KeyCode::Enter => Some(Action::ToggleCollapse),
                KeyCode::Up => Some(Action::Select(-1isize)),
                KeyCode::Down => Some(Action::Select(1isize)),
                KeyCode::Left => Some(
                    if shift {
                        Action::MoveEntryByDays(-1i64)
                    } else {
                        Action::BrowseWeek(-1i64)
                    },
                ),
                KeyCode::Right => Some(
                    if shift {
                        Action::MoveEntryByDays(1i64)
                    } else {
                        Action::BrowseWeek(1i64)
                    },
                ),
                _ => None,
            },
        }
    }
}

/// The action of a key press (see [`map_key_spec`]), given whether the edit dialog is open,
/// the mode, and whether the input is empty.
pub fn map_key(dialog_open: bool, mode: Mode, input_empty: bool, key: Key) -> (res: Option<Action>)
    ensures
        res == map_key_spec(dialog_open, mode, input_empty, key),
{
    let shift = key.shift;
    if dialog_open {
        return match key.code {
            KeyCode::Esc => Some(Action::PopupCancel),
            KeyCode::Enter => Some(
                if shift {
                    Action::PopupInput(EditRequest::InsertChar('\n'))
                } else {
                    Action::PopupCommit
                },
            ),
            _ => match edit_request(key) {
                Some(r) => Some(Action::PopupInput(r)),
                None => None,
            },
        };
    }
    match mode {
        Mode::Insert => match key.code {
            KeyCode::Esc => Some(Action::EnterNormal),
            KeyCode::Enter => Some(
                if shift {
                    Action::Input(EditRequest::InsertChar('\n'))
                } else {
                    Action::CommitInsert
                },
            ),
            KeyCode::Up => Some(Action::Select(-1)),
            KeyCode::Down => Some(Action::Select(1)),
            KeyCode::Left if input_empty => Some(Action::BrowseWeek(-1)),
            KeyCode::Right if input_empty => Some(Action::BrowseWeek(1)),
            _ => match edit_request(key) {
                Some(r) => Some(Action::Input(r)),
                None => None,
            },
        },
        Mode::Normal => match key.code {
            KeyCode::Char(c) => if c == 'q' {
                Some(Action::Quit)
            } else if c == 'o' {
                Some(Action::Output)
            } else if c == 'i' || c == 'a' {
                Some(Action::EnterInsert)
            } else if c == 'e' {
                Some(Action::OpenEdit)
            } else if c == 'd' {
                Some(Action::Delete)
            } else if c == 'u' {
                Some(Action::Undo)
            } else if c == 'y' {
                Some(Action::Yank)
            } else if c == 't' {
                Some(Action::BrowseToday)
            } else if c == ' ' {
                Some(Action::ToggleCollapse)
            } else if c == 'k' {
                Some(Action::Select(-1))
            } else if c == 'j' {
                Some(Action::Select(1))
            } else if c == 'h' {
                Some(Action::BrowseWeek(-1))
            } else if c == 'l' {
                Some(Action::BrowseWeek(1))
            } else {
                None
            },
            KeyCode::Esc => Some(Action::EnterInsert),
            KeyCode::Enter => Some(Action::ToggleCollapse),
            KeyCode::Up => Some(Action::Select(-1)),
            KeyCode::Down => Some(Action::Select(1)),
            KeyCode::Left => Some(
                if shift {
                    Action::MoveEntryByDays(-1)
                } else {
                    Action::BrowseWeek(-1)
                },
            ),
            KeyCode::Right => Some(
                if shift {
                    Action::MoveEntryByDays(1)
                } else {
                    Action::BrowseWeek(1)
                },
            ),
            _ => None,
        },
    }
}

/// Outside the edit dialog, in Normal mode, `j` and `k` move the selection exactly as Down and
/// Up do, down and up by one entry, and `h` and `l` browse to the week before and after, as
/// Left and Right do without Shift; whatever modifiers are held with the letter.
pub proof fn law_letters_move_like_arrows(input_empty: bool, shift: bool, ctrl: bool)
    ensures
        map_key_spec(false, Mode::Normal, input_empty, Key { code: KeyCode::Char('j'), shift, ctrl })
            == map_key_spec(false, Mode::Normal, input_empty, Key { code: KeyCode::Down, shift, ctrl }),
        map_key_spec(false, Mode::Normal, input_empty, Key { code: KeyCode::Char('k'), shift, ctrl })
            == map_key_spec(false, Mode::Normal, input_empty, Key { code: KeyCode::Up, shift, ctrl }),
        map_key_spec(false, Mode::Normal, input_empty, Key { code: KeyCode::Char('j'), shift, ctrl })
            == Some(Action::Select(1isize)),
        map_key_spec(false, Mode::Normal, input_empty, Key { code: KeyCode::Char('k'), shift, ctrl })
            == Some(Action::Select(-1isize)),
        map_key_spec(false, Mode::Normal, input_empty, Key { code: KeyCode::Char('h'), shift, ctrl })
            == map_key_spec(false, Mode::Normal, input_empty, Key { code: KeyCode::Left, shift: false, ctrl }),
        map_key_spec(false, Mode::Normal, input_empty, Key { code: KeyCode::Char('l'), shift, ctrl })
            == map_key_spec(false, Mode::Normal, input_empty, Key { code: KeyCode::Right, shift: false, ctrl }),
        map_key_spec(false, Mode::Normal, input_empty, Key { code: KeyCode::Char('h'), shift, ctrl })
            == Some(Action::BrowseWeek(-1i64)),
        map_key_spec(false, Mode::Normal, input_empty, Key { code: KeyCode::Char('l'), shift, ctrl })
            == Some(Action::BrowseWeek(1i64)),
{
}

/// The arrows select the same way in both modes: Down moves the selection down by one entry
/// and Up up by one, outside the edit dialog.
pub proof fn law_arrows_select_alike_in_both_modes(input_empty: bool, shift: bool, ctrl: bool)
    ensures
        map_key_spec(false, Mode::Insert, input_empty, Key { code: KeyCode::Down, shift, ctrl })
            == map_key_spec(false, Mode::Normal, input_empty, Key { code: KeyCode::Down, shift, ctrl }),
        map_key_spec(false, Mode::Insert, input_empty, Key { code: KeyCode::Up, shift, ctrl })
            == map_key_spec(false, Mode::Normal, input_empty, Key { code: KeyCode::Up, shift, ctrl }),
        map_key_spec(false, Mode::Insert, input_empty, Key { code: KeyCode::Down, shift, ctrl })
            == Some(Action::Select(1isize)),
        map_key_spec(false, Mode::Insert, input_empty, Key { code: KeyCode::Up, shift, ctrl })
            == Some(Action::Select(-1isize)),
{
}

/// In Normal mode the other keys that share an action agree: space toggles as Enter does, and
/// `i` and `a` go to Insert mode as Esc does; the commands keep their letters: `q` quits, `o`
/// prints the day, `e` edits, `d` deletes, `u` undoes, `y` copies, `t` goes to today.
pub proof fn law_normal_mode_commands(input_empty: bool, shift: bool, ctrl: bool)
    ensures
        ({
            let at = |code: KeyCode| map_key_spec(false, Mode::Normal, input_empty, Key { code, shift, ctrl });
            &&& at(KeyCode::Char(' ')) == at(KeyCode::Enter)
            &&& at(KeyCode::Enter) == Some(Action::ToggleCollapse)
            &&& at(KeyCode::Char('i')) == at(KeyCode::Esc)
            &&& at(KeyCode::Char('a')) == at(KeyCode::Esc)
            &&& at(KeyCode::Esc) == Some(Action::EnterInsert)
            &&& at(KeyCode::Char('q')) == Some(Action::Quit)
            &&& at(KeyCode::Char('o')) == Some(Action::Output)
            &&& at(KeyCode::Char('e')) == Some(Action::OpenEdit)
            &&& at(KeyCode::Char('d')) == Some(Action::Delete)
            &&& at(KeyCode::Char('u')) == Some(Action::Undo)
            &&& at(KeyCode::Char('y')) == Some(Action::Yank)
            &&& at(KeyCode::Char('t')) == Some(Action::BrowseToday)
        }),
{
}

/// In Insert mode, and in the edit dialog, a character typed without Control is inserted into
/// the text; Esc leaves Insert mode, and Shift+Left or Shift+Right moves the selected entry
/// by a day only in Normal mode.
pub proof fn law_typing_inserts(input_empty: bool, shift: bool, c: char)
    ensures
        map_key_spec(false, Mode::Insert, input_empty, Key { code: KeyCode::Char(c), shift, ctrl: false })
            == Some(Action::Input(EditRequest::InsertChar(c))),
        map_key_spec(true, Mode::Insert, input_empty, Key { code: KeyCode::Char(c), shift, ctrl: false })
            == Some(Action::PopupInput(EditRequest::InsertChar(c))),
        map_key_spec(true, Mode::Normal, input_empty, Key { code: KeyCode::Char(c), shift, ctrl: false })
            == Some(Action::PopupInput(EditRequest::InsertChar(c))),
        map_key_spec(false, Mode::Insert, input_empty, Key { code: KeyCode::Esc, shift, ctrl: false })
            == Some(Action::EnterNormal),
        map_key_spec(false, Mode::Normal, input_empty, Key { code: KeyCode::Left, shift: true, ctrl: false })
            == Some(Action::MoveEntryByDays(-1i64)),
        map_key_spec(false, Mode::Normal, input_empty, Key { code: KeyCode::Right, shift: true, ctrl: false })
            == Some(Action::MoveEntryByDays(1i64)),
{
}

} // verus!
