use chrono::{Datelike, Local, NaiveDate, TimeZone};
use fruit_tui::calendar::{weekday_from_monday, CalendarWeek};
use fruit_tui::input_view::{input_cursor, input_position, input_scroll, Area};
use fruit_tui::til::{ensure_entry_changed, format_day_as_markdown, parse_date, parse_date_on, validate_content, TilEntry, TilError};
use fruit_tui::til_keys::{map_key, Action, EditRequest, Key, KeyCode, Mode};
use fruit_tui::til_view::{
    new_undo_history, read_input, undo_status, InputCommand, RowKey, UndoOperation, VisibleRow,
    WeekView, UNDO_LIMIT,
};

fn day(year: i32, month: u32, d: u32) -> i32 {
    NaiveDate::from_ymd_opt(year, month, d).unwrap().num_days_from_ce()
}

fn entry(id: i64, content: &str) -> TilEntry {
    TilEntry { id, content: content.into(), recorded_at: 0 }
}

/// The view of the week of `date` with `entries` (each with its day), selecting `preferred`.
fn view_of(date: i32, entries: &[(i32, TilEntry)], preferred: Option<RowKey>) -> WeekView {
    let mut view = WeekView::new(date);
    refresh(&mut view, entries, preferred);
    view
}

fn refresh(view: &mut WeekView, entries: &[(i32, TilEntry)], preferred: Option<RowKey>) {
    let dates = view.calendar_week().dates();
    view.set_week(&dates, &entries.to_vec());
    view.select_preferred(preferred);
}

fn key(code: KeyCode, shift: bool) -> Key {
    Key { code, shift, ctrl: false }
}

#[test]
fn content_validation_trims_boundaries() {
    assert_eq!(validate_content("  배운 내용  ").unwrap(), "배운 내용");
}

#[test]
fn content_validation_rejects_whitespace_only_input() {
    assert!(matches!(validate_content(" \t "), Err(TilError::InvalidInput(_))));
}

#[test]
fn day_is_formatted_as_a_nested_markdown_list() {
    let date = day(2026, 8, 31);
    let entries = vec![
        TilEntry { id: 1, content: "첫 줄".into(), recorded_at: 0 },
        TilEntry { id: 2, content: "둘째 기록\n세부 내용\n- 확인할 점".into(), recorded_at: 60 },
    ];

    assert_eq!(
        format_day_as_markdown(date, &entries),
        [
            "- 2026-08-31\n",
            "  - 첫 줄\n",
            "  - 둘째 기록\n",
            "    세부 내용\n",
            "    - 확인할 점\n",
        ]
        .concat()
    );
}

#[test]
fn week_runs_from_monday_through_sunday() {
    let week = CalendarWeek::containing(day(2026, 9, 2));

    assert_eq!(week.start(), day(2026, 8, 31));
    assert_eq!(week.end(), day(2026, 9, 6));
    assert_eq!(week.dates().len(), 7);
}

#[test]
fn thursday_decides_the_month_and_first_week() {
    assert_eq!(CalendarWeek::containing(day(2026, 8, 30)).label(), "2026년 8월 4주차");
    assert_eq!(CalendarWeek::containing(day(2026, 8, 31)).label(), "2026년 9월 1주차");
}

#[test]
fn shifting_moves_exactly_one_calendar_week() {
    let week = CalendarWeek::containing(day(2026, 9, 2));

    assert_eq!(week.shifted(-1).start(), day(2026, 8, 24));
    assert_eq!(week.shifted(1).start(), day(2026, 9, 7));
}

#[test]
fn shift_enter_inserts_a_newline_instead_of_committing() {
    assert_eq!(
        map_key(false, Mode::Insert, true, key(KeyCode::Enter, true)),
        Some(Action::Input(EditRequest::InsertChar('\n')))
    );
}

#[test]
fn enter_commits_the_input() {
    assert_eq!(
        map_key(false, Mode::Insert, true, key(KeyCode::Enter, false)),
        Some(Action::CommitInsert)
    );
}

#[test]
fn arrows_browse_weeks_when_insert_input_is_empty() {
    assert_eq!(
        map_key(false, Mode::Insert, true, key(KeyCode::Left, false)),
        Some(Action::BrowseWeek(-1))
    );
    assert_eq!(
        map_key(false, Mode::Insert, true, key(KeyCode::Right, false)),
        Some(Action::BrowseWeek(1))
    );
}

#[test]
fn arrows_browse_weeks_in_normal_mode() {
    assert_eq!(
        map_key(false, Mode::Normal, true, key(KeyCode::Left, false)),
        Some(Action::BrowseWeek(-1))
    );
    assert_eq!(
        map_key(false, Mode::Normal, true, key(KeyCode::Right, false)),
        Some(Action::BrowseWeek(1))
    );
}

#[test]
fn arrows_edit_the_input_while_typing() {
    assert_eq!(
        map_key(false, Mode::Insert, false, key(KeyCode::Left, false)),
        Some(Action::Input(EditRequest::GoToPrevChar))
    );
    assert_eq!(
        map_key(true, Mode::Normal, true, key(KeyCode::Esc, false)),
        Some(Action::PopupCancel)
    );
    assert_eq!(
        map_key(false, Mode::Normal, true, key(KeyCode::Left, true)),
        Some(Action::MoveEntryByDays(-1))
    );
}

#[test]
fn dates_are_first_level_rows_and_entries_are_second_level_rows() {
    let date = day(2026, 8, 31);
    let view = view_of(date, &[(date, entry(1, "기록"))], Some(RowKey::Date(date)));

    let date_index = view.position_of(RowKey::Date(date)).unwrap();
    assert!(matches!(view.visible_rows[date_index], VisibleRow::Date { .. }));
    assert!(matches!(view.visible_rows[date_index + 1], VisibleRow::Entry { .. }));
}

#[test]
fn current_view_contains_monday_through_sunday_in_order() {
    let view = view_of(day(2026, 9, 2), &[], None);

    assert_eq!(view.date_groups.len(), 7);
    assert_eq!(view.date_groups.first().unwrap().date, day(2026, 8, 31));
    assert_eq!(view.date_groups.last().unwrap().date, day(2026, 9, 6));
}

#[test]
fn browsing_weeks_preserves_the_selected_weekday() {
    let mut view = view_of(day(2026, 9, 2), &[], Some(RowKey::Date(day(2026, 9, 2))));

    view.selected_date = view.browse_target(-1);
    let selected = view.selected_date;
    refresh(&mut view, &[], Some(RowKey::Date(selected)));

    assert_eq!(view.selected_date, day(2026, 8, 26));
    assert_eq!(view.calendar_week().label(), "2026년 8월 4주차");
    assert_eq!(view.selected_row_key(), Some(RowKey::Date(view.selected_date)));
}

#[test]
fn collapsing_a_date_hides_only_its_entries() {
    let date = day(2026, 8, 31);
    let entries = [(date, entry(1, "기록 1")), (date, entry(2, "기록 2"))];
    let mut view = view_of(date, &entries, Some(RowKey::Date(date)));
    let expanded_count = view.visible_rows.len();

    let status = view.toggle_selected_date();

    assert!(view.is_collapsed(date));
    assert_eq!(view.visible_rows.len(), expanded_count - 2);
    assert_eq!(view.selected_row_key(), Some(RowKey::Date(date)));
    assert_eq!(status.unwrap(), "2026-08-31 접음");
}

#[test]
fn folding_survives_a_refresh_and_unfolds_again() {
    let date = day(2026, 8, 31);
    let entries = [(date, entry(1, "기록"))];
    let mut view = view_of(date, &entries, Some(RowKey::Date(date)));
    view.toggle_selected_date();
    let more = [(date, entry(1, "기록")), (date, entry(3, "외부 기록"))];
    let keep = view.selected_row_key();
    refresh(&mut view, &more, keep);

    assert!(view.is_collapsed(date));
    assert_eq!(view.selected_row_key(), Some(RowKey::Date(date)));
    assert!(view.selected_date_entries().iter().any(|e| e.id == 3));
    assert_eq!(view.toggle_selected_date().unwrap(), "2026-08-31 펼침");
    assert!(!view.is_collapsed(date));
}

#[test]
fn out_input_returns_the_selected_day_output_without_saving_out() {
    let date = day(2026, 8, 31);
    let view = view_of(date, &[], Some(RowKey::Date(date)));

    assert!(matches!(read_input("out"), InputCommand::Output));
    assert_eq!(view.formatted_output(), "- 2026-08-31\n  - (기록 없음)\n");
    assert!(!view.selected_date_entries().iter().any(|e| e.content == "out"));
}

#[test]
fn multiline_input_is_saved_as_one_entry() {
    let date = day(2026, 9, 1);
    let InputCommand::Create(content) = read_input("Lens\n- Get-Set\n- Set-Get") else {
        panic!("input should record an entry");
    };
    let view = view_of(date, &[(date, entry(7, &content))], Some(RowKey::Entry(7)));

    assert_eq!(view.selected_date_entries().len(), 1);
    assert_eq!(view.selected_date_entries()[0].content, "Lens\n- Get-Set\n- Set-Get");
}

#[test]
fn blank_input_asks_for_nothing() {
    assert!(matches!(read_input(" \n "), InputCommand::Nothing));
    assert!(matches!(read_input("  out  "), InputCommand::Output));
    assert!(matches!(read_input(" x "), InputCommand::Create(ref c) if c == "x"));
}

#[test]
fn selection_wraps_around_the_rows() {
    let date = day(2026, 8, 31);
    let mut view = view_of(date, &[(date, entry(1, "a"))], Some(RowKey::Date(date)));
    assert_eq!(view.selection, Some(0));
    view.move_selection(-1);
    assert_eq!(view.selection, Some(view.visible_rows.len() - 1));
    assert_eq!(view.selected_date, day(2026, 9, 6));
    view.move_selection(1);
    assert_eq!(view.selection, Some(0));
    assert_eq!(view.selected_date, date);
}

#[test]
fn folding_from_an_entry_selects_its_day() {
    let date = day(2026, 9, 1);
    let mut view = view_of(date, &[(date, entry(5, "a"))], Some(RowKey::Entry(5)));
    assert_eq!(view.selected_entry_id(), Some(5));
    assert!(view.set_selected_date_collapsed(true).is_none());
    assert_eq!(view.selected_row_key(), Some(RowKey::Date(date)));
    assert!(!view.is_collapsed(date));
}

#[test]
fn entries_are_found_for_editing() {
    let date = day(2026, 9, 1);
    let view = view_of(date, &[(date, entry(5, "내용"))], None);
    assert_eq!(view.entry_content(5).unwrap(), "내용");
    assert_eq!(view.entry_content(6).unwrap_err(), TilError::EntryNotFound(6));
    assert_eq!(TilError::EntryNotFound(6).message(), "#6 TIL 기록을 찾을 수 없습니다");
    assert_eq!(view.week_entry_count(), 1);
    assert_eq!(view.move_target(2), None);
}

#[test]
fn moving_an_entry_targets_a_later_day() {
    let date = day(2026, 9, 1);
    let view = view_of(date, &[(date, entry(5, "a"))], Some(RowKey::Entry(5)));
    assert_eq!(view.move_target(1), Some((5, day(2026, 9, 2))));
}

#[test]
fn undo_keeps_five_changes_and_focuses_what_it_restores() {
    let mut history = new_undo_history();
    for id in 0..6 {
        history.remember(UndoOperation::DeleteCreated { entry_id: id });
    }
    assert_eq!(history.len(), UNDO_LIMIT);
    assert!(matches!(history.latest(), Some(UndoOperation::DeleteCreated { entry_id: 5 })));
    let moved = UndoOperation::RestoreRecordedAt { entry_id: 3, recorded_at: 0, date_to_show: 10 };
    assert_eq!(moved.focus_after(20), (RowKey::Entry(3), 10));
    assert_eq!(
        UndoOperation::DeleteCreated { entry_id: 3 }.focus_after(20),
        (RowKey::Date(20), 20)
    );
    assert_eq!(undo_status(4), "되돌림 (남은 4개)");
}

#[test]
fn multiline_cursor_uses_the_current_lines_unicode_width() {
    let value = "첫 줄\nLens 🔍";

    assert_eq!(input_position(value, value.chars().count()), (1, 7));
}

#[test]
fn multiline_input_scrolls_to_keep_the_cursor_visible() {
    let value = "1\n2\n3\n4\n5\n6\n7";
    let area = Area { x: 0, y: 0, width: 20, height: 6 };
    let cursor = value.chars().count();

    assert_eq!(input_scroll(area, value, cursor), (3, 0));
    assert_eq!(input_cursor(area, value, cursor), (2, 4));
}

#[test]
fn days_display_and_weekdays_count_from_monday() {
    assert!(format_day_as_markdown(day(2026, 8, 31), &vec![]).starts_with("- 2026-08-31\n"));
    assert_eq!(weekday_from_monday(day(2026, 8, 31) as i64), 0);
    assert_eq!(weekday_from_monday(day(2026, 9, 6) as i64), 6);
}

#[test]
fn typed_dates_name_today_yesterday_or_a_calendar_day() {
    let today = day(2026, 8, 31);
    assert_eq!(parse_date_on("today", today), Ok(today));
    assert_eq!(parse_date_on("  TODAY ", today), Ok(today));
    assert_eq!(parse_date_on("오늘", today), Ok(today));
    assert_eq!(parse_date_on("yesterday", today), Ok(today - 1));
    assert_eq!(parse_date_on("어제", today), Ok(today - 1));
    assert_eq!(parse_date_on(" 2024-02-29 ", today), Ok(day(2024, 2, 29)));
    let refused = TilError::InvalidInput("날짜는 today, yesterday 또는 YYYY-MM-DD로 입력하세요".into());
    assert_eq!(parse_date_on("2023-02-29", today), Err(refused.clone()));
    assert_eq!(parse_date_on("tomorrow", today), Err(refused.clone()));
    assert_eq!(parse_date_on("", today), Err(refused));
    assert_eq!(parse_date("2026-01-05"), Ok(day(2026, 1, 5)));
}

#[test]
fn a_change_that_touches_no_row_names_the_missing_entry() {
    assert_eq!(ensure_entry_changed(12, 0), Err(TilError::EntryNotFound(12)));
    assert_eq!(ensure_entry_changed(12, 1), Ok(()));
    assert_eq!(TilError::EntryNotFound(12).message(), "#12 TIL 기록을 찾을 수 없습니다");
}

#[test]
fn there_is_no_yesterday_on_the_first_day_chrono_represents() {
    let first = NaiveDate::MIN.num_days_from_ce();
    let refused = TilError::InvalidInput("날짜는 today, yesterday 또는 YYYY-MM-DD로 입력하세요".into());
    assert_eq!(parse_date_on("yesterday", first), Err(refused));
    assert_eq!(parse_date_on("today", first), Ok(first));
    assert_eq!(parse_date_on("2026-08-31", first), Ok(day(2026, 8, 31)));
}

#[test]
fn times_chrono_cannot_represent_have_no_day_and_show_a_question_mark() {
    let far = TilEntry { id: 1, content: "x".into(), recorded_at: i64::MAX };
    assert_eq!(far.time_label(), "?");
    assert_eq!(far.recorded_date(), None);
    assert_eq!(fruit_tui::calendar::clock_text(i64::MIN), "?");
    assert_eq!(fruit_tui::calendar::minute_text(i64::MIN), "?");
    assert_eq!(fruit_tui::calendar::local_day_of(i64::MIN), None);
    let epoch = TilEntry { id: 2, content: "y".into(), recorded_at: 0 };
    let d = epoch.recorded_date().unwrap();
    assert!((day(1969, 12, 31)..=day(1970, 1, 2)).contains(&d));
    assert_eq!(epoch.time_label().len(), 5);
}

#[test]
fn local_times_are_chronos_own_rendering() {
    for ts in [0i64, 86_399, 1_788_000_000, -1_000_000_000] {
        let local = Local.timestamp_opt(ts, 0).unwrap();
        assert_eq!(fruit_tui::calendar::clock_text(ts), local.format("%H:%M").to_string());
        assert_eq!(fruit_tui::calendar::minute_text(ts), local.format("%Y-%m-%d %H:%M").to_string());
        assert_eq!(fruit_tui::calendar::local_day_of(ts), Some(local.date_naive().num_days_from_ce()));
    }
}

#[test]
fn error_messages_write_ids_in_decimal() {
    for id in [0i64, 7, 42, -5, i64::MAX, i64::MIN, 1_000_000] {
        assert_eq!(TilError::EntryNotFound(id).message(), format!("#{id} TIL 기록을 찾을 수 없습니다"));
    }
}

#[test]
fn days_far_from_now_are_written_as_chrono_writes_them() {
    for (y, m, d, text) in [
        (1, 1, 1, "0001-01-01"),
        (0, 1, 1, "0000-01-01"),
        (-1, 1, 1, "-0001-01-01"),
        (10000, 12, 31, "+10000-12-31"),
        (2024, 2, 29, "2024-02-29"),
        (-262143, 1, 1, "-262143-01-01"),
        (262142, 12, 31, "+262142-12-31"),
    ] {
        let n = day(y, m, d);
        assert!(format_day_as_markdown(n, &vec![]).starts_with(&format!("- {text}\n")), "{text}");
    }
}

#[test]
fn times_on_chronos_first_and_last_day_are_written_as_chrono_writes_them() {
    let first = chrono::NaiveDate::MIN.and_hms_opt(0, 0, 0).unwrap().and_utc().timestamp();
    let last = chrono::NaiveDate::MAX.and_hms_opt(23, 59, 59).unwrap().and_utc().timestamp();
    for ts in [first, last] {
        let local = chrono::DateTime::from_timestamp(ts, 0).unwrap().with_timezone(&Local);
        assert_eq!(fruit_tui::calendar::minute_text(ts), local.format("%Y-%m-%d %H:%M").to_string());
    }
    assert_eq!(fruit_tui::calendar::minute_text(first - 1), "?");
    assert_eq!(fruit_tui::calendar::minute_text(last + 1), "?");
}
