use fruit_tui::git::{
    run_result,
    clean, is_test_path, parse_changes, parse_patch, try_parse_patch, Change,
    ChangesError, Comparison, LineKind, Mode, Repository, SourceRead,
};

fn bytes(s: &str) -> Vec<u8> {
    s.as_bytes().to_vec()
}

#[test]
fn classifies_common_tests_without_matching_production_substrings() {
    for path in [
        "module/src/test/kotlin/Helper.kt",
        "src/androidTest/Test.kt",
        "src/testFixtures/data.json",
        "a/__tests__/Button.tsx",
        "a/foo.spec.ts",
        "test_calc.py",
        "a/foo_test.go",
        "a/PaymentSpec.scala",
    ] {
        assert!(is_test_path(&bytes(path)), "{path}");
    }
    for path in [
        "src/main/kotlin/Contest.kt",
        "src/main/Latest.java",
        "src/testimony.ts",
        "README.md",
        "src/testing/Client.kt",
        "src/main.rs",
        "build.gradle.kts",
    ] {
        assert!(!is_test_path(&bytes(path)), "{path}");
    }
}

#[test]
fn parses_nul_delimited_renames_and_unusual_paths() {
    let changes =
        parse_changes(&b"R100\0src/old name.rs\0src/new\nname.rs\0D\0src/test/gone.rs\0".to_vec())
            .unwrap();
    assert_eq!(changes.len(), 2);
    assert_eq!(changes[0].old_path.as_deref(), Some(&b"src/old name.rs"[..]));
    assert_eq!(changes[0].path, b"src/new\nname.rs".to_vec());
    assert_eq!(changes[1].status, 'D');
    assert!(changes[1].is_test());
    assert!(parse_changes(&b"R100\0old\0".to_vec()).is_err());
}

#[test]
fn keeps_renames_across_test_boundary_visible() {
    let change = Change {
        status: 'R',
        path: bytes("tests/a.rs"),
        old_path: Some(bytes("src/a.rs")),
    };
    assert!(!change.is_test());
}

#[test]
fn numbers_hunks_and_does_not_emit_terminal_controls() {
    let lines = parse_patch("--- a/x\n+++ b/x\n@@ -7,2 +9,2 @@\n-old\n+new\n same\n");
    assert_eq!((lines[3].old, lines[3].new), (Some(7), None));
    assert_eq!((lines[4].old, lines[4].new), (None, Some(9)));
    assert_eq!((lines[5].old, lines[5].new), (Some(8), Some(10)));
    assert_eq!(clean("\x1b[31mhello\tworld"), "\\u{1b}[31mhello    world");
}

#[test]
fn each_malformed_listing_gives_its_error() {
    assert_eq!(parse_changes(&b"\0x\0".to_vec()).unwrap_err(), ChangesError::EmptyStatus);
    assert_eq!(parse_changes(&b"M\0".to_vec()).unwrap_err(), ChangesError::MissingPath);
    assert_eq!(parse_changes(&b"M\0\0".to_vec()).unwrap_err(), ChangesError::MissingPath);
    assert_eq!(
        parse_changes(&b"C75\0a\0".to_vec()).unwrap_err(),
        ChangesError::MissingDestination
    );
    assert_eq!(ChangesError::EmptyStatus.message(), "Empty git diff status");
    assert_eq!(ChangesError::MissingPath.message(), "Missing git diff path");
    assert_eq!(ChangesError::MissingDestination.message(), "Missing rename destination");
    assert!(parse_changes(&Vec::new()).unwrap().is_empty());
}

#[test]
fn modes_and_changes_are_labelled() {
    assert_eq!(Mode::Working.label(), "HEAD -> working tree (staged + unstaged)");
    assert_eq!(Mode::Unstaged.label(), "index -> working tree (unstaged)");
    assert_eq!(Mode::Staged.label(), "HEAD -> index (staged)");
    assert_eq!(Mode::Branches("main".into(), "HEAD".into()).label(), "main -> HEAD");
    let renamed = Change {
        status: 'R',
        path: bytes("new\tname"),
        old_path: Some(bytes("old")),
    };
    assert_eq!(renamed.label(), "old -> new    name");
    let plain = Change { status: 'M', path: bytes("a.rs"), old_path: None };
    assert_eq!(plain.label(), "a.rs");
}

#[test]
fn lossy_decoding_replaces_invalid_bytes() {
    let ok = Change { status: 'M', path: b"ok".to_vec(), old_path: None };
    assert_eq!(ok.label(), "ok");
    let invalid = Change { status: 'M', path: vec![b'a', 0xff, b'b'], old_path: None };
    assert_eq!(invalid.label(), "a\u{fffd}b");
}

#[test]
fn hunk_lines_are_numbered_per_hunk_and_headers_reset_them() {
    let lines = parse_patch(
        "diff --git a/x b/x\n@@ -1 +1 @@\n-a\n+b\ndiff --git a/y b/y\n+not counted\n@@ -3,1 +4,1 @@\n c\n",
    );
    assert_eq!(lines[0].kind, LineKind::Header);
    assert_eq!(lines[1].kind, LineKind::Hunk);
    assert_eq!((lines[2].kind, lines[2].old, lines[2].new), (LineKind::Removed, Some(1), None));
    assert_eq!((lines[3].kind, lines[3].old, lines[3].new), (LineKind::Added, None, Some(1)));
    assert_eq!((lines[5].kind, lines[5].new), (LineKind::Header, None));
    assert_eq!((lines[7].kind, lines[7].old, lines[7].new), (LineKind::Context, Some(3), Some(4)));
}

#[test]
fn numbering_past_the_largest_line_is_refused() {
    let patch = format!("@@ -1 +{} @@\n+a\n+b\n", usize::MAX);
    assert!(try_parse_patch(&patch).is_none());
    assert!(try_parse_patch("@@ -1 +1 @@\n+a\n").is_some());
}

#[test]
fn repositories_open_at_the_printed_top_level() {
    assert_eq!(Repository::open(&bytes("/tmp/repo\n")).root, bytes("/tmp/repo"));
    assert_eq!(Repository::open(&bytes("/tmp/repo")).root, bytes("/tmp/repo"));
}

#[test]
fn git_arguments_follow_the_comparison() {
    assert_eq!(
        Repository::global_args(),
        vec!["--no-pager", "--literal-pathspecs", "-c", "core.quotePath=false"]
    );
    let staged = Comparison::Staged(Some("abc".into()));
    let args = Repository::name_status_args(&staged);
    assert_eq!(&args[8..], &["--cached", "abc", "--name-status", "-z", "--"]);
    let between = Comparison::Between("a".into(), "b".into());
    let change = Change { status: 'R', path: bytes("new"), old_path: Some(bytes("old")) };
    let (args, paths) = Repository::patch_args(&between, &change, true);
    assert_eq!(&args[8..], &["a", "b", "--ignore-all-space", "--patch", "--unified=3", "--"]);
    assert_eq!(paths, vec![bytes("old"), bytes("new")]);
    assert_eq!(
        Repository::resolve_args("main"),
        vec!["rev-parse", "--verify", "--end-of-options", "main^{commit}"]
    );
    assert_eq!(Repository::diff_args(&Comparison::Unstaged).len(), 8);
}

#[test]
fn branch_listing_skips_symbolic_heads() {
    let branches = Repository::branches("main\norigin/HEAD\norigin/main\nfeature\n");
    assert_eq!(branches, vec!["main", "origin/main", "feature"]);
}

#[test]
fn sources_are_read_from_each_side_of_the_comparison() {
    let modified = Change { status: 'M', path: bytes("a.rs"), old_path: None };
    let (old, new) = Repository::sources(&Comparison::Working("base".into()), &modified);
    assert!(matches!(old, SourceRead::Blob(ref r, ref p) if r == "base" && p == &bytes("a.rs")));
    assert!(matches!(new, SourceRead::Working(ref p) if p == &bytes("a.rs")));
    let (old, new) = Repository::sources(&Comparison::Unstaged, &modified);
    assert!(matches!(old, SourceRead::Blob(ref r, _) if r.is_empty()));
    assert!(matches!(new, SourceRead::Working(_)));
    let (old, new) = Repository::sources(&Comparison::Staged(None), &modified);
    assert!(matches!(old, SourceRead::Nothing));
    assert!(matches!(new, SourceRead::Blob(ref r, _) if r.is_empty()));
    let renamed = Change { status: 'R', path: bytes("b.rs"), old_path: Some(bytes("a.rs")) };
    let (old, new) =
        Repository::sources(&Comparison::Between("x".into(), "y".into()), &renamed);
    assert!(matches!(old, SourceRead::Blob(ref r, ref p) if r == "x" && p == &bytes("a.rs")));
    assert!(matches!(new, SourceRead::Blob(ref r, ref p) if r == "y" && p == &bytes("b.rs")));
    let added = Change { status: 'A', path: bytes("n.rs"), old_path: None };
    let deleted = Change { status: 'D', path: bytes("d.rs"), old_path: None };
    assert!(matches!(Repository::sources(&Comparison::Unstaged, &added).0, SourceRead::Nothing));
    assert!(matches!(Repository::sources(&Comparison::Unstaged, &deleted).1, SourceRead::Nothing));
}

#[test]
fn snapshots_keep_the_comparison_and_parse_the_listing() {
    let snapshot =
        Repository::snapshot(Comparison::Unstaged, &b"M\0a.rs\0".to_vec()).ok().unwrap();
    assert!(matches!(snapshot.comparison, Comparison::Unstaged));
    assert_eq!(snapshot.changes.len(), 1);
    assert!(Repository::snapshot(Comparison::Unstaged, &b"M\0".to_vec()).is_err());
}

#[test]
fn patches_are_read_from_git_output_bytes() {
    let lines = Repository::patch(&b"@@ -2 +2 @@\n-a\n+b\n".to_vec()).unwrap();
    assert_eq!((lines[1].old, lines[2].new), (Some(2), Some(2)));
}

#[test]
fn failed_runs_report_their_cleaned_error_output() {
    assert_eq!(run_result(true, b"abc\n".to_vec(), &b"ignored".to_vec()), Ok(b"abc\n".to_vec()));
    assert_eq!(
        run_result(false, Vec::new(), &b"  fatal: bad\trevision\n".to_vec()),
        Err("fatal: bad    revision".to_string())
    );
    assert_eq!(run_result(false, Vec::new(), &vec![0x1b, b'x', 0xff]), Err("\\u{1b}x\u{fffd}".to_string()));
    assert_eq!(run_result(false, Vec::new(), &b" \n".to_vec()), Err(String::new()));
}

fn describe(read: &SourceRead) -> (String, String, String) {
    match read {
        SourceRead::Nothing => ("nothing".into(), String::new(), String::new()),
        SourceRead::Blob(revision, path) => {
            ("blob".into(), revision.clone(), String::from_utf8_lossy(path).into_owned())
        },
        SourceRead::Working(path) => ("working".into(), String::new(), String::from_utf8_lossy(path).into_owned()),
    }
}

fn plan(kind: &str, revision: &str, path: &str) -> (String, String, String) {
    (kind.into(), revision.into(), path.into())
}

#[test]
fn highlighting_sources_follow_each_comparison_and_rename() {
    let change = Change { status: 'M', path: bytes("src/main.rs"), old_path: None };
    for (comparison, old, new) in [
        (Comparison::Working("base".into()), plan("blob", "base", "src/main.rs"), plan("working", "", "src/main.rs")),
        (Comparison::Staged(Some("base".into())), plan("blob", "base", "src/main.rs"), plan("blob", "", "src/main.rs")),
        (Comparison::Unstaged, plan("blob", "", "src/main.rs"), plan("working", "", "src/main.rs")),
    ] {
        let (before, after) = Repository::sources(&comparison, &change);
        assert_eq!(describe(&before), old);
        assert_eq!(describe(&after), new);
    }
    let renamed = Change { status: 'R', path: bytes("src/renamed.rs"), old_path: Some(bytes("src/main.rs")) };
    let (before, after) = Repository::sources(&Comparison::Working("head".into()), &renamed);
    assert_eq!(describe(&before), plan("blob", "head", "src/main.rs"));
    assert_eq!(describe(&after), plan("working", "", "src/renamed.rs"));
}

#[test]
fn control_characters_are_escaped_as_rust_escapes_them() {
    for c in ['\n', '\r', '\u{0}', '\u{7}', '\u{1f}', '\u{7f}', '\u{85}', '\u{9f}'] {
        let text = format!("a{c}b");
        let expected = format!("a{}b", c.escape_default());
        assert_eq!(clean(&text), expected);
    }
    assert_eq!(clean("\t"), "    ");
}

#[test]
fn each_mode_stands_for_its_comparison() {
    let none = (String::new(), String::new());
    let base = |c: Comparison| match c {
        Comparison::Working(b) => format!("working {b}"),
        Comparison::Unstaged => "unstaged".to_string(),
        Comparison::Staged(b) => format!("staged {b:?}"),
        Comparison::Between(a, b) => format!("between {a} {b}"),
    };
    assert_eq!(base(fruit_tui::git::comparison_of(&Mode::Working, Some("h".into()), String::new(), none.clone())), "working h");
    assert_eq!(base(fruit_tui::git::comparison_of(&Mode::Working, None, "empty".into(), none.clone())), "working empty");
    assert_eq!(base(fruit_tui::git::comparison_of(&Mode::Unstaged, None, String::new(), none.clone())), "unstaged");
    assert_eq!(base(fruit_tui::git::comparison_of(&Mode::Staged, None, String::new(), none.clone())), "staged None");
    assert_eq!(
        base(fruit_tui::git::comparison_of(
            &Mode::Branches("main".into(), "HEAD".into()),
            None,
            String::new(),
            ("a1".into(), "b2".into())
        )),
        "between a1 b2"
    );
}

#[test]
fn lines_before_the_first_hunk_are_unnumbered_headers() {
    let patch = parse_patch("diff --git a/x b/x\nindex 1..2\n@@ bad\n+not numbered\n@@ -3,1 +4,2 @@\n-old\n+new\n context\ndiff --git a/y b/y\n+after\n");
    for i in [0, 1, 2, 3, 8, 9] {
        assert_eq!((patch[i].old, patch[i].new), (None, None), "line {i}");
        assert!(matches!(patch[i].kind, LineKind::Header | LineKind::Hunk));
    }
    assert_eq!((patch[5].old, patch[5].new), (Some(3), None));
    assert_eq!((patch[6].old, patch[6].new), (None, Some(4)));
    assert_eq!((patch[7].old, patch[7].new), (Some(4), Some(5)));
}
