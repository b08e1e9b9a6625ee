use fruit_tui::review::{
    empty_message, files_pane, fits_screen, header_rows, refresh_step, update_plan, Effect, RefreshStep, Review,
    UpdatePlan,
};
use std::time::{Duration, Instant};
use unicode_width::UnicodeWidthStr;

use fruit_tui::diff_view::{
    anchor_at, block_pairs, change_blocks, is_file_header, line_code_text, locate, marker,
    section_indents, split_places, split_widths, unified_places, unified_width, Block, RowPlace,
    ViewMode,
};
use fruit_tui::file_tree::FileTree;
use fruit_tui::git::{parse_patch, Change, Comparison, DiffLine, LineKind, Mode, Snapshot, Sources};
use fruit_tui::matching::{
    aligns_by_position, changed_ranges, changed_words, positional_pairs, OpTag, TokenOp,
};
use fruit_tui::refresh::{Preview, Request};
use fruit_tui::review::{
    command_for, comparison_from_args, hidden_count, jump_hunk, kept_selection, max_scroll, mode_from_args, moved_file,
    next_anchor, page_height, scrolled, visible_changes, BranchPicker, Command, DialogKind, Focus,
    Key, KeyPress, ModeChoice,
};
use fruit_tui::spans::{emphasis_cuts, guide_columns, indent_cuts, token_span_pieces};
use fruit_tui::syntax::Brackets;
use fruit_tui::tokens::{
    code_indent, code_line_starts, identifier, operator, token_measures, token_ranges,
    token_texts, wrap_name,
};

/// The lines a plain line of code wraps to at `width`, as text.
fn wrap_plain(text: &str, width: usize) -> Vec<String> {
    let ranges = token_ranges(text);
    let tokens: Vec<(usize, bool)> = ranges
        .iter()
        .map(|r| {
            let part = &text[r.clone()];
            (part.width(), part.chars().all(char::is_whitespace))
        })
        .collect();
    let starts = code_line_starts(&tokens, width);
    let mut lines = Vec::new();
    for (i, &start) in starts.iter().enumerate() {
        let end = starts.get(i + 1).copied().unwrap_or(ranges.len());
        let line: String = ranges[start..end].iter().map(|r| &text[r.clone()]).collect();
        lines.push(line);
    }
    lines
}

/// Which lines the side-by-side view pairs, aligning every change by position.
fn split_pairs(patch: &Vec<DiffLine>) -> Vec<(Option<usize>, Option<usize>)> {
    let mut pairs = Vec::new();
    for block in change_blocks(patch) {
        let alignment = match &block {
            Block::Same(_) => Vec::new(),
            Block::Change { removed, added, .. } => positional_pairs(removed.len(), added.len()),
        };
        pairs.extend(block_pairs(&block, &alignment));
    }
    pairs
}

fn layout(patch: &Vec<DiffLine>, mode: ViewMode) -> Vec<RowPlace> {
    let ones = vec![1; patch.len()];
    match mode {
        ViewMode::Unified => unified_places(patch, &ones),
        ViewMode::Split => split_places(patch, &split_pairs(patch), &ones, &ones),
    }
}

/// The code of the lines a row shows.
fn shown(patch: &Vec<DiffLine>, row: &RowPlace) -> Vec<String> {
    let mut texts = vec![line_code_text(&patch[row.anchor])];
    if let Some(other) = row.other {
        if other != row.anchor {
            texts.push(line_code_text(&patch[other]));
        }
    }
    texts
}

fn change(path: &str) -> Change {
    Change { status: 'M', path: path.as_bytes().to_vec(), old_path: None }
}

#[test]
fn preserves_unicode_graphemes_numbers_and_overlong_tokens() {
    let text = "결제금액 cafe\u{301} 👩‍💻 12.25e-3 veryLongIdentifier";
    let lines = wrap_plain(text, 7);
    assert_eq!(lines.concat(), text);
    for token in ["결제금액", "cafe\u{301}", "👩‍💻", "12.25e-3", "veryLongIdentifier"] {
        assert!(lines.iter().any(|line| line.contains(token)), "{token}");
    }
    assert!(lines.iter().any(|line| line.width() > 7));
    assert_eq!(code_line_starts(&Vec::new(), 0).len(), 1);
}

#[test]
fn code_wraps_at_token_boundaries() {
    let source = "val paymentId = \"hello world\" ?: fallbackValue";
    let lines = wrap_plain(source, 12);
    assert_eq!(lines.concat(), source);
    for token in ["paymentId", "\"hello world\"", "?:", "fallbackValue"] {
        assert!(lines.iter().any(|line| line.contains(token)), "{token}");
    }
    let texts = token_texts(source);
    assert_eq!(texts.concat(), source);
    assert!(texts.contains(&"\"hello world\"".to_string()));
}

#[test]
fn tokens_keep_literals_numbers_and_operators_together() {
    assert_eq!(
        token_texts("x = '''a''' + b'c' + 'd"),
        vec!["x", " ", "=", " ", "'''a'''", " ", "+", " ", "b", "'c'", " ", "+", " ", "'", "d"]
    );
    assert_eq!(token_texts("1.5e+3.x\\\""), vec!["1.5e+3", ".", "x", "\\", "\""]);
    assert_eq!(token_texts("\"a\\\"b\" ->"), vec!["\"a\\\"b\"", " ", "->"]);
    let ranges = token_ranges("한 a");
    assert_eq!(ranges.iter().map(|r| (r.start, r.end)).collect::<Vec<_>>(), vec![(0, 3), (3, 4), (4, 5)]);
    assert!(identifier("가") && identifier("_") && identifier("$") && !identifier("-"));
    assert!(operator("?") && !operator("??") && !operator("a"));
}

#[test]
fn cjk_names_wrap_without_splitting_graphemes() {
    let name = "결제漢字あアcafe\u{301}.kt";
    let lines = wrap_name(name, 7);
    assert_eq!(lines.concat(), name);
    assert!(lines.iter().all(|line| line.width() <= 7));
    assert!(lines.iter().any(|line| line.contains("e\u{301}")));
    assert_eq!(wrap_name("", 0), vec![""]);
    assert_eq!(token_ranges("a\r\nb"), vec![0..1, 1..3, 3..4]);
    assert_eq!(code_indent("    x"), 4);
}

#[test]
fn unified_view_keeps_git_order_and_change_anchors() {
    let patch = parse_patch("@@ -1,2 +1,2 @@\n-old\n+new\n same\n");
    let rows = layout(&patch, ViewMode::Unified);
    assert_eq!(rows.len(), 4);
    assert_eq!(patch[rows[1].anchor].kind, LineKind::Removed);
    assert_eq!(patch[rows[2].anchor].kind, LineKind::Added);
    let anchor = anchor_at(&rows, 2);
    let rows = layout(&patch, ViewMode::Split);
    let row = &rows[locate(&rows, anchor)];
    assert_eq!(patch[row.anchor].kind, LineKind::Removed);
    assert_eq!(row.other, Some(anchor));
    assert_eq!(rows.iter().filter(|row| row.hunk).count(), 1);
}

#[test]
fn missing_final_newline_does_not_break_replacement_pairing() {
    let patch = parse_patch(
        "@@ -1 +1 @@\n-old\n\\ No newline at end of file\n+new\n\\ No newline at end of file\n",
    );
    let rows = layout(&patch, ViewMode::Split);
    let row = &rows[1];
    assert_eq!(patch[row.anchor].kind, LineKind::Removed);
    assert_eq!(patch[row.other.unwrap()].kind, LineKind::Added);
    assert!(rows[2].other.is_some());
    assert_eq!(split_pairs(&patch)[2], (Some(2), Some(4)));
}

#[test]
fn hides_file_headers_in_both_views_without_hiding_code_or_changing_anchors() {
    let patch = parse_patch(
        "diff --git a/main.rs b/main.rs\nindex abc123..def456 100644\n--- a/main.rs\n+++ b/main.rs\n@@ -1,2 +1,2 @@\n--- code\n+++ code\n index is code here\n",
    );
    for mode in [ViewMode::Split, ViewMode::Unified] {
        let rows = layout(&patch, mode);
        assert_eq!(rows[0].anchor, 4);
        assert!(rows[0].hunk);
        let text = rows.iter().flat_map(|row| shown(&patch, row)).collect::<Vec<_>>().join("\n");
        for header in ["diff --git", "index abc123", "--- a/main.rs", "+++ b/main.rs"] {
            assert!(!text.contains(header), "{text}");
        }
        for code in ["-- code", "++ code", "index is code here"] {
            assert!(text.contains(code), "{text}");
        }
        assert_eq!(rows[locate(&rows, 5)].anchor, 5);
        assert!(rows[locate(&rows, 6)].anchor == 6 || rows[locate(&rows, 6)].other == Some(6));
    }
}

#[test]
fn binary_and_mode_only_changes_keep_their_summary() {
    for summary in [
        "Binary files a/data.bin and b/data.bin differ\n",
        "old mode 100644\nnew mode 100755\n",
    ] {
        let patch = parse_patch(&format!("diff --git a/main.rs b/main.rs\n{summary}"));
        for mode in [ViewMode::Split, ViewMode::Unified] {
            let rows = layout(&patch, mode);
            assert!(!rows.is_empty());
            assert!(rows.iter().all(|row| row.anchor > 0));
        }
    }
}

#[test]
fn hunks_share_the_least_indentation_of_their_code() {
    let patch = parse_patch("@@ -1,2 +1,2 @@\n-    a\n+      b\n \n@@ -9 +9 @@\n+  c\n");
    assert_eq!(section_indents(&patch), vec![4, 4, 4, 4, 2, 2]);
    assert!(is_file_header(LineKind::Header, "+++ b/x"));
    assert!(!is_file_header(LineKind::Added, "+++ b/x"));
    assert_eq!((marker(LineKind::Added), marker(LineKind::Removed), marker(LineKind::Hunk)), ('+', '-', ' '));
    assert_eq!(ViewMode::default().label(), "Side by side");
    assert_eq!(ViewMode::Unified.label(), "Unified");
}

#[test]
fn rows_are_located_by_anchor_then_by_the_next_line() {
    let rows = vec![
        RowPlace { anchor: 0, other: None, hunk: true },
        RowPlace { anchor: 3, other: Some(4), hunk: false },
    ];
    assert_eq!(locate(&rows, 4), 1);
    assert_eq!(locate(&rows, 2), 1);
    assert_eq!(locate(&rows, 9), 0);
    assert_eq!(anchor_at(&rows, 9), 0);
    assert_eq!(unified_width(90), 74);
    assert_eq!(split_widths(120), (50, 50));
    assert_eq!(split_widths(5), (1, 1));
}

#[test]
fn the_test_filter_and_query_choose_the_listed_files() {
    let changes = vec![change("src/Main.rs"), change("tests/a.rs"), change("src/lib.rs")];
    assert_eq!(visible_changes(&changes, false, ""), vec![0, 2]);
    assert_eq!(visible_changes(&changes, true, "MAIN"), vec![0]);
    assert_eq!(hidden_count(&changes, false), 1);
    assert_eq!(hidden_count(&changes, true), 0);
    let visible = vec![0, 2];
    assert_eq!(kept_selection(&changes, &visible, Some(&changes[2]), Some(0)), Some(1));
    assert_eq!(kept_selection(&changes, &visible, Some(&changes[1]), Some(5)), Some(1));
    assert_eq!(kept_selection(&changes, &vec![], None, Some(5)), None);
    assert_eq!(moved_file(Some(0), 3, -1), Some(0));
    assert_eq!(moved_file(Some(1), 3, 5), Some(2));
    assert_eq!(moved_file(None, 0, 1), None);
}

#[test]
fn scrolling_stays_within_the_rows() {
    assert_eq!(max_scroll(30, 10), 20);
    assert_eq!(max_scroll(3, 10), 0);
    assert_eq!(page_height(10), 8);
    assert_eq!(page_height(2), 1);
    assert_eq!(scrolled(5, isize::MIN, 20), 0);
    assert_eq!(scrolled(5, isize::MAX, 20), 20);
    let rows: Vec<RowPlace> = [true, false, true, false]
        .iter()
        .enumerate()
        .map(|(i, &hunk)| RowPlace { anchor: i, other: None, hunk })
        .collect();
    assert_eq!(jump_hunk(&rows, 0, true, 10), Some(2));
    assert_eq!(jump_hunk(&rows, 2, true, 10), None);
    assert_eq!(jump_hunk(&rows, 2, false, 10), Some(0));
    assert_eq!(jump_hunk(&rows, 3, false, 1), Some(1));
}

#[test]
fn refreshed_patches_keep_the_reviewed_line() {
    let old = parse_patch("@@ -1,2 +1,2 @@\n-a\n+b\n c\n");
    let same = parse_patch("diff --git a/f b/f\n@@ -1,2 +1,2 @@\n-a\n+b\n c\n");
    assert_eq!(next_anchor(&old, 2, &same), 3);
    let renumbered = parse_patch("@@ -1,2 +1,2 @@\n-z\n+y\n");
    assert_eq!(next_anchor(&old, 1, &renumbered), 1);
    assert_eq!(next_anchor(&old, 9, &renumbered), 2);
    assert_eq!(next_anchor(&old, 3, &Vec::new()), 0);
}

#[test]
fn branch_picker_chooses_a_base_then_a_target() {
    let mut picker = BranchPicker::new(vec!["main".into(), "Feature".into(), "fix".into()]);
    picker.type_char('F');
    assert_eq!(picker.visible(), vec!["Feature", "fix"]);
    picker.move_selection(5);
    assert_eq!(picker.selected, Some(1));
    assert_eq!(picker.pick(), None);
    assert_eq!(picker.from.as_deref(), Some("fix"));
    assert_eq!(picker.query, "");
    picker.backspace();
    assert_eq!(picker.pick(), Some(("fix".into(), "main".into())));
}

#[test]
fn keys_ask_for_commands_by_context() {
    let press = |key, ctrl| KeyPress { key, ctrl };
    let files = Focus::Files;
    assert_eq!(command_for(DialogKind::Closed, false, files, 20, press(Key::Char('c'), true)), Command::Quit);
    assert_eq!(command_for(DialogKind::Help, false, files, 20, press(Key::Char('x'), false)), Command::KeepHelp);
    assert_eq!(command_for(DialogKind::Branches, false, files, 20, press(Key::Up, false)), Command::PickerMove(-1));
    assert_eq!(command_for(DialogKind::Closed, true, files, 20, press(Key::Char('a'), false)), Command::SearchType('a'));
    assert_eq!(command_for(DialogKind::Closed, false, files, 20, press(Key::Char('d'), true)), Command::Vertical(10));
    assert_eq!(command_for(DialogKind::Closed, false, files, 1, press(Key::Char('u'), true)), Command::Vertical(-1));
    assert_eq!(command_for(DialogKind::Closed, false, files, 20, press(Key::Enter, false)), Command::OpenTree(true));
    assert_eq!(command_for(DialogKind::Closed, false, Focus::Diff, 20, press(Key::Char('h'), false)), Command::FocusFiles);
    assert_eq!(command_for(DialogKind::Closed, false, Focus::Diff, 20, press(Key::Right, false)), Command::ShiftRight);
    assert_eq!(command_for(DialogKind::Closed, false, files, 20, press(Key::PageUp, false)), Command::Vertical(-20));
    assert_eq!(command_for(DialogKind::Closed, false, files, 20, press(Key::Char('s'), false)), Command::SwitchMode(ModeChoice::Staged));
    assert_eq!(command_for(DialogKind::Closed, false, files, 20, press(Key::Char('W'), false)), Command::Refresh(true));
}

#[test]
fn command_line_revisions_choose_the_comparison() {
    assert_eq!(mode_from_args(&vec!["main".into()], false, false), Mode::Branches("main".into(), "HEAD".into()));
    assert_eq!(mode_from_args(&vec!["a".into(), "b".into()], false, false), Mode::Branches("a".into(), "b".into()));
    assert_eq!(mode_from_args(&vec![], true, false), Mode::Staged);
    assert_eq!(mode_from_args(&vec![], false, true), Mode::Unstaged);
    assert_eq!(mode_from_args(&vec![], false, false), Mode::Working);
}

#[test]
fn small_changes_align_by_position() {
    assert_eq!(positional_pairs(2, 1), vec![(Some(0), Some(0)), (Some(1), None)]);
    assert!(aligns_by_position(0, 3));
    assert!(aligns_by_position(1, 1));
    assert!(aligns_by_position(100, 100));
    assert!(!aligns_by_position(2, 3));
}

#[test]
fn word_changes_cover_whole_tokens() {
    let old = token_ranges("a bc d");
    let new = token_ranges("a x d");
    let ops = vec![
        TokenOp { tag: OpTag::Equal, old_start: 0, old_end: 2, new_start: 0, new_end: 2 },
        TokenOp { tag: OpTag::Replace, old_start: 2, old_end: 3, new_start: 2, new_end: 3 },
        TokenOp { tag: OpTag::Delete, old_start: 9, old_end: 12, new_start: 3, new_end: 3 },
    ];
    let (removed, added) = changed_ranges(&old, &new, &ops);
    assert_eq!(removed, vec![2..4]);
    assert_eq!(added, vec![2..3]);
    let (removed, added) = changed_words("a bc d", "a x d", Instant::now() + Duration::from_secs(5));
    assert_eq!((removed, added), (vec![2..4], vec![2..3]));
}

#[test]
fn brackets_take_their_nesting_depth() {
    let mut brackets = Brackets::new();
    let depths: Vec<Option<usize>> = "({)]}x)".chars().map(|c| brackets.visit(c)).collect();
    assert_eq!(depths, vec![Some(0), Some(1), None, None, Some(1), None, Some(0)]);
    assert!(brackets.open.is_empty());
}

#[test]
fn previews_read_sources_only_for_numbered_patches() {
    let patch = parse_patch("@@ -1 +1 @@\n-a\n+b\n");
    assert!(Preview::needs_sources(&patch));
    let preview = Preview::read(patch, Some(Err("boom".into())));
    assert_eq!(preview.warning.as_deref(), Some("Could not read source for highlighting: boom"));
    assert_eq!(preview.sources, Sources::default());
    let empty = Preview::read(parse_patch("Binary files differ\n"), None);
    assert!(empty.warning.is_none());
    let request = Request {
        generation: 1,
        mode: Mode::Working,
        selected: Some(change("b.rs")),
        ignore_whitespace: false,
    };
    let snapshot = Snapshot { comparison: Comparison::Unstaged, changes: vec![change("a.rs"), change("b.rs")] };
    assert_eq!(request.preview_index(&snapshot), Some(1));
    let update = request.read(snapshot, Some(Ok(Preview::empty()))).ok().unwrap();
    assert_eq!(update.preview.unwrap().0.path, b"b.rs".to_vec());
}

#[test]
fn compact_directories_keep_full_paths_and_preserve_collapsed_state() {
    let changes: Vec<Change> = ["subproject/src/main/checkout/Service.kt", "subproject/src/main/billing/Service.kt"]
        .into_iter()
        .map(|path| Change { path: path.as_bytes().to_vec(), status: 'M', old_path: None })
        .collect();
    let mut tree = FileTree::default();
    tree.rebuild(&changes, &vec![0, 1], false, None, false);
    assert_eq!(tree.entries[0].label, "subproject/src/main/");
    assert_eq!(tree.entries.iter().filter(|entry| entry.change.is_some()).count(), 2);
    tree.collapse_or_parent();
    tree.rebuild(&changes, &vec![0, 1], false, None, false);
    assert_eq!(tree.entries.len(), 1);
    assert!(tree.current().unwrap().collapsed);
    tree.rebuild(&changes, &vec![0], true, Some(&changes[0].path), true);
    assert_eq!(tree.current().unwrap().path, changes[0].path);
    tree.collapse_or_parent();
    assert_eq!(tree.current().unwrap().label, "subproject/src/main/checkout/");
}

#[test]
fn file_tree_lists_directories_before_files_in_byte_order() {
    let changes: Vec<Change> = ["b.txt", "a/z.rs", "a/y.rs", "c/d/e.rs", "A.md"]
        .into_iter()
        .map(|path| Change { path: path.as_bytes().to_vec(), status: 'M', old_path: None })
        .collect();
    let mut tree = FileTree::default();
    tree.rebuild(&changes, &vec![0, 1, 2, 3, 4], false, None, false);
    let labels: Vec<&str> = tree.entries.iter().map(|e| e.label.as_str()).collect();
    assert_eq!(labels, vec!["a/", "y.rs", "z.rs", "c/d/", "e.rs", "A.md", "b.txt"]);
    let depths: Vec<usize> = tree.entries.iter().map(|e| e.depth).collect();
    assert_eq!(depths, vec![0, 1, 1, 0, 1, 0, 0]);
    assert_eq!(tree.entries[1].change, Some(2));
    assert_eq!(tree.entries[4].path, b"c/d/e.rs".to_vec());
    assert_eq!(tree.selected, Some(0));
}

#[test]
fn file_tree_moves_within_bounds_and_expands_folded_directories() {
    let changes: Vec<Change> = ["a/x.rs", "a/y.rs"]
        .into_iter()
        .map(|path| Change { path: path.as_bytes().to_vec(), status: 'M', old_path: None })
        .collect();
    let mut tree = FileTree::default();
    tree.move_by(3);
    assert_eq!(tree.selected, None);
    tree.rebuild(&changes, &vec![0, 1], false, None, false);
    tree.move_by(10);
    assert_eq!(tree.selected, Some(2));
    tree.move_by(-1);
    assert_eq!(tree.current().unwrap().label, "x.rs");
    tree.collapse_or_parent();
    assert_eq!(tree.selected, Some(0));
    tree.collapse_or_parent();
    tree.rebuild(&changes, &vec![0, 1], false, None, false);
    assert_eq!(tree.entries.len(), 1);
    tree.rebuild(&changes, &vec![0, 1], true, None, false);
    assert_eq!(tree.entries.len(), 3);
    tree.expand();
    tree.rebuild(&changes, &vec![0, 1], false, None, false);
    assert_eq!(tree.entries.len(), 3);
    assert!(!tree.entries[0].collapsed);
}

#[test]
fn tokens_take_their_bytes_from_every_span_they_cross() {
    let spans = ["val payment", "Id = \"hello", " world\" ?: fallbackValue"];
    let lens: Vec<usize> = spans.iter().map(|s| s.len()).collect();
    let text: String = spans.concat();
    let ranges = token_ranges(&text);
    let pieces = token_span_pieces(&lens, &ranges);
    assert_eq!(pieces.len(), ranges.len());
    let payment = ranges.iter().position(|r| &text[r.clone()] == "paymentId").unwrap();
    assert_eq!(pieces[payment], vec![(0, 4, 11), (1, 0, 2)]);
    let quoted = ranges.iter().position(|r| &text[r.clone()] == "\"hello world\"").unwrap();
    assert_eq!(pieces[quoted], vec![(1, 5, 11), (2, 0, 7)]);
    for (range, parts) in ranges.iter().zip(&pieces) {
        let joined: String = parts.iter().map(|&(i, from, to)| &spans[i][from..to]).collect();
        assert_eq!(joined, text[range.clone()]);
    }
    assert_eq!(token_span_pieces(&vec![], &vec![]), Vec::<Vec<(usize, usize, usize)>>::new());
}

#[test]
fn emphasis_cuts_spans_at_the_marked_bytes_and_keeps_the_rest() {
    assert_eq!(
        emphasis_cuts(&vec![5, 5], &vec![3..7]),
        vec![(0, 0, 3, false), (0, 3, 5, true), (1, 5, 7, true), (1, 7, 10, false)]
    );
    assert_eq!(emphasis_cuts(&vec![4], &vec![]), vec![(0, 0, 4, false)]);
    assert_eq!(emphasis_cuts(&vec![4], &vec![0..4]), vec![(0, 0, 4, true)]);
    assert_eq!(
        emphasis_cuts(&vec![10], &vec![1..2, 5..8]),
        vec![(0, 0, 1, false), (0, 1, 2, true), (0, 2, 5, false), (0, 5, 8, true), (0, 8, 10, false)]
    );
    // Every byte of every span is in exactly one cut, in order.
    let cuts = emphasis_cuts(&vec![3, 0, 6], &vec![2..4, 4..5, 7..9]);
    let mut at = 0;
    for &(_, from, to, _) in &cuts {
        assert_eq!(from, at);
        assert!(from <= to);
        at = to;
    }
    assert_eq!(at, 9);
}

#[test]
fn comparison_arguments_are_unambiguous() {
    let args = |list: &[&str]| list.iter().map(|a| a.to_string()).collect::<Vec<String>>();
    assert!(comparison_from_args(&args(&[]), false, false).is_ok());
    assert!(comparison_from_args(&args(&["main", "feature"]), false, false).is_ok());
    assert!(comparison_from_args(&args(&["main"]), false, false).is_ok());
    assert!(comparison_from_args(&args(&["main", "feature", "third"]), false, false).is_err());
    assert!(comparison_from_args(&args(&["main", "feature"]), true, false).is_err());
    assert!(comparison_from_args(&args(&[]), true, true).is_err());
    assert_eq!(comparison_from_args(&args(&[]), true, false), Ok(Mode::Staged));
    assert_eq!(comparison_from_args(&args(&["main"]), false, true), Err(fruit_tui::review::ArgumentError::Conflict));
}

#[test]
fn token_bounds_group_graphemes_into_tokens() {
    let graphemes = |list: &[&str]| list.iter().map(|g| g.chars().collect::<Vec<char>>()).collect::<Vec<_>>();
    assert_eq!(
        fruit_tui::tokens::token_bounds(&graphemes(&["l", "e", "t", " ", "x", "=", "=", "1", "2"])),
        vec![(0, 3), (3, 4), (4, 5), (5, 7), (7, 9)]
    );
    assert_eq!(fruit_tui::tokens::token_bounds(&graphemes(&[])), vec![]);
}

#[test]
fn searching_shows_folded_directories_open() {
    let changes: Vec<Change> = ["src/a.rs", "src/b.rs", "docs/c.md"]
        .into_iter()
        .map(|path| Change { path: path.as_bytes().to_vec(), status: 'M', old_path: None })
        .collect();
    let mut tree = FileTree::default();
    tree.rebuild(&changes, &vec![0, 1, 2], false, None, false);
    tree.collapse_or_parent();
    tree.rebuild(&changes, &vec![0, 1, 2], false, None, false);
    assert!(tree.entries.iter().any(|entry| entry.collapsed));
    tree.rebuild(&changes, &vec![0, 1, 2], true, None, false);
    assert!(tree.entries.iter().all(|entry| !entry.collapsed));
    assert_eq!(tree.entries.iter().filter(|entry| entry.change.is_some()).count(), 3);
    tree.rebuild(&changes, &vec![], true, None, false);
    assert!(tree.entries.is_empty());
    assert!(tree.current().is_none());
}

#[test]
fn lines_whose_words_differ_always_mark_a_word() {
    let deadline = Instant::now() + Duration::from_secs(5);
    for (before, after) in [("a b", "a b c"), ("x", ""), ("", "y"), ("fn f()", "fn g()"), ("same", "same ")] {
        let (removed, added) = changed_words(before, after, deadline);
        assert!(!removed.is_empty() || !added.is_empty(), "{before:?} {after:?}");
    }
    let (removed, added) = changed_words("same line", "same line", deadline);
    assert!(removed.is_empty() && added.is_empty());
    // An expired deadline still marks what differs.
    let (removed, added) = changed_words("a b c", "a x c", Instant::now() - Duration::from_secs(1));
    assert!(!removed.is_empty() || !added.is_empty());
}

#[test]
fn stale_refreshes_are_dropped_and_previews_follow_the_selection() {
    assert_eq!(refresh_step(3, 4, false), RefreshStep::Discard);
    assert_eq!(refresh_step(3, 4, true), RefreshStep::Discard);
    assert_eq!(refresh_step(4, 4, true), RefreshStep::ReportFailure);
    assert_eq!(refresh_step(4, 4, false), RefreshStep::Apply);
    let a = change("a.rs");
    let b = change("b.rs");
    assert_eq!(update_plan(Some(&a), Some(&a), Some(&a), true), UpdatePlan::Nothing);
    assert_eq!(update_plan(Some(&a), Some(&a), Some(&a), false), UpdatePlan::ShowPreview);
    assert_eq!(update_plan(Some(&b), Some(&a), Some(&a), true), UpdatePlan::ShowPreview);
    assert_eq!(update_plan(Some(&a), Some(&a), Some(&b), true), UpdatePlan::ReloadPatch);
    assert_eq!(update_plan(Some(&a), None, Some(&a), true), UpdatePlan::ReloadPatch);
    assert_eq!(update_plan(None, None, Some(&a), true), UpdatePlan::Nothing);
    assert_eq!(update_plan(None, None, None, false), UpdatePlan::Nothing);
}

#[test]
fn wraps_tokens_independently_of_highlight_spans() {
    let source = "val paymentId = \"hello world\" ?: fallbackValue";
    let spans = ["val payment", "Id = \"hello", " world\" ?: fallbackValue"];
    let lens: Vec<usize> = spans.iter().map(|s| s.len()).collect();
    let ranges = token_ranges(source);
    let pieces = token_span_pieces(&lens, &ranges);
    let measures: Vec<(usize, bool)> = ranges
        .iter()
        .map(|r| (source[r.clone()].width(), source[r.clone()].chars().all(char::is_whitespace)))
        .collect();
    let starts = code_line_starts(&measures, 12);
    let lines: Vec<String> = starts
        .iter()
        .enumerate()
        .map(|(i, &start)| {
            let end = starts.get(i + 1).copied().unwrap_or(ranges.len());
            pieces[start..end]
                .iter()
                .flatten()
                .map(|&(span, from, to)| &spans[span][from..to])
                .collect()
        })
        .collect();
    assert_eq!(lines.concat(), source);
    for token in ["paymentId", "\"hello world\"", "?:", "fallbackValue"] {
        assert!(lines.iter().any(|line| line.contains(token)), "{token}");
    }
    // The middle (green) span still colours part of the text.
    assert!(pieces.iter().flatten().any(|&(span, from, to)| span == 1 && from < to));
}

#[test]
fn screen_layout_follows_the_terminal_size() {
    assert!(fits_screen(40, 10));
    assert!(!fits_screen(39, 10));
    assert!(!fits_screen(40, 9));
    assert_eq!(header_rows(1, 32), 3);
    assert_eq!(header_rows(30, 20), 15);
    assert_eq!(files_pane(120, 32), (true, 40));
    assert_eq!(files_pane(90, 32), (true, 30));
    assert_eq!(files_pane(300, 32), (true, 60));
    assert_eq!(files_pane(60, 20), (false, 6));
    assert_eq!(files_pane(60, 5), (false, 3));
    assert_eq!(empty_message(2, 2, true), None);
    assert_eq!(empty_message(0, 0, true).as_deref(), Some("No changes in this comparison."));
    assert_eq!(empty_message(0, 3, false).as_deref(), Some("No matching files. Esc clears the search."));
    assert_eq!(empty_message(0, 3, true).as_deref(), Some("All changed files are tests. Press t to show them."));
}

#[test]
fn commands_change_the_review_and_leave_the_rest_to_the_screen() {
    let mut review = Review::new(false);
    assert_eq!(review.apply_command(Command::Vertical(3)), Effect::MoveTree(3));
    assert_eq!(review.apply_command(Command::ToggleFocus), Effect::Nothing);
    assert_eq!(review.focus, Focus::Diff);
    assert_eq!(review.apply_command(Command::Vertical(-2)), Effect::Scroll(-2));
    assert_eq!(review.apply_command(Command::StartSearch), Effect::Refilter);
    assert!(review.searching);
    assert_eq!(review.focus, Focus::Files);
    assert_eq!(review.apply_command(Command::SearchType('a')), Effect::Refilter);
    assert_eq!(review.apply_command(Command::SearchType('b')), Effect::Refilter);
    assert_eq!(review.query, "ab");
    assert_eq!(review.apply_command(Command::SearchBackspace), Effect::Refilter);
    assert_eq!(review.query, "a");
    assert_eq!(review.apply_command(Command::SearchDone), Effect::Nothing);
    assert!(!review.searching);
    assert_eq!(review.query, "a");
    assert_eq!(review.apply_command(Command::ClearQuery), Effect::Refilter);
    assert_eq!(review.query, "");
    assert_eq!(review.apply_command(Command::ShiftRight), Effect::Nothing);
    assert_eq!(review.apply_command(Command::ShiftRight), Effect::Nothing);
    assert_eq!(review.horizontal, 16);
    assert_eq!(review.apply_command(Command::ShiftLeft), Effect::Nothing);
    assert_eq!(review.horizontal, 8);
    assert_eq!(review.apply_command(Command::ToggleIndent), Effect::ToggleIndent);
    assert_eq!(review.horizontal, 0);
    assert_eq!(review.apply_command(Command::ShiftLeft), Effect::Nothing);
    assert_eq!(review.horizontal, 0);
    assert_eq!(review.apply_command(Command::Refresh(true)), Effect::Refresh);
    assert!(review.ignore_whitespace);
    assert_eq!(review.apply_command(Command::Refresh(false)), Effect::Refresh);
    assert!(review.ignore_whitespace);
    assert_eq!(review.apply_command(Command::ToggleTests), Effect::Refilter);
    assert!(review.show_tests);
    assert_eq!(review.apply_command(Command::OpenHelp), Effect::Nothing);
    assert_eq!(review.dialog, DialogKind::Help);
    assert_eq!(review.apply_command(Command::CloseDialog), Effect::Nothing);
    assert_eq!(review.dialog, DialogKind::Closed);
    assert_eq!(review.apply_command(Command::JumpHunk(true)), Effect::JumpHunk(true));
    assert_eq!(review.focus, Focus::Diff);
    assert_eq!(review.apply_command(Command::SwitchMode(ModeChoice::Staged)), Effect::SwitchMode(ModeChoice::Staged));
    assert_eq!(review.apply_command(Command::Quit), Effect::Quit);
}

#[test]
fn toggling_twice_and_typing_then_deleting_restore_the_review() {
    let mut review = Review::new(true);
    review.apply_command(Command::ToggleFocus);
    review.apply_command(Command::ToggleFocus);
    assert_eq!(review.focus, Focus::Files);
    review.apply_command(Command::ToggleTests);
    review.apply_command(Command::ToggleTests);
    assert!(review.show_tests);
    review.apply_command(Command::SearchType('x'));
    review.apply_command(Command::SearchBackspace);
    assert_eq!(review.query, "");
}

#[test]
fn tree_depth_rises_by_one_only_under_a_directory() {
    let changes: Vec<Change> = ["a/b/c.rs", "a/b/d/e.rs", "a/x.rs", "a/y/z.rs", "top.rs"]
        .into_iter()
        .map(|path| Change { path: path.as_bytes().to_vec(), status: 'M', old_path: None })
        .collect();
    let mut tree = FileTree::default();
    tree.rebuild(&changes, &vec![0, 1, 2, 3, 4], true, None, false);
    assert_eq!(tree.entries[0].depth, 0);
    for pair in tree.entries.windows(2) {
        assert!(pair[1].depth <= pair[0].depth + 1);
        if pair[1].depth == pair[0].depth + 1 {
            assert_eq!(pair[0].change, None);
        }
    }
    let depths: Vec<usize> = tree.entries.iter().map(|e| e.depth).collect();
    assert_eq!(depths.iter().max(), Some(&3));
}

#[test]
fn tokens_are_measured_by_display_width_and_whitespace() {
    assert_eq!(token_measures("ab  cd"), vec![(2, false), (2, true), (2, false)]);
    assert_eq!(token_measures("결제 x"), vec![(4, false), (1, true), (1, false)]);
    assert_eq!(token_measures(""), vec![]);
    let source = "val paymentId = \"hello world\" ?: fallbackValue";
    let measured = token_measures(source);
    let ranges = token_ranges(source);
    assert_eq!(measured.len(), ranges.len());
    for (range, (width, whitespace)) in ranges.iter().zip(&measured) {
        assert_eq!(*width, source[range.clone()].width());
        assert_eq!(*whitespace, source[range.clone()].chars().all(char::is_whitespace));
    }
}

#[test]
fn indent_is_cut_across_spans_and_guides_fall_on_every_fourth_column() {
    assert_eq!(indent_cuts(&vec![2, 3, 4], 4), vec![2, 2, 0]);
    assert_eq!(indent_cuts(&vec![2, 3], 0), vec![0, 0]);
    assert_eq!(indent_cuts(&vec![1, 1], 9), vec![1, 1]);
    assert_eq!(guide_columns(6, 0), vec![false, false, false, false, true, false]);
    assert_eq!(guide_columns(5, 2), vec![false, false, true, false, false]);
    assert_eq!(guide_columns(0, 4), vec![]);
}

#[test]
fn searching_shows_each_listed_change_exactly_once() {
    let changes: Vec<Change> = ["src/a/b.rs", "src/a/c.rs", "src/d.rs", "x/y/z/w.rs", "top.rs"]
        .into_iter()
        .map(|path| Change { path: path.as_bytes().to_vec(), status: 'M', old_path: None })
        .collect();
    let visible = vec![4, 0, 2, 3];
    let mut tree = FileTree::default();
    tree.rebuild(&changes, &visible, true, None, false);
    let mut shown: Vec<usize> = tree.entries.iter().filter_map(|e| e.change).collect();
    shown.sort();
    let mut listed = visible.clone();
    listed.sort();
    assert_eq!(shown, listed);
    assert!(tree.entries.iter().all(|e| !e.collapsed));
}
