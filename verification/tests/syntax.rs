use fruit_tui::syntax::{
    bracket_color, choose_syntax, highlighted_line_for, in_literal, Brackets, StyledText, SyntaxEngine,
};

fn engine() -> SyntaxEngine {
    SyntaxEngine::new()
}

fn line_text(runs: &[StyledText]) -> String {
    runs.iter().map(|run| run.text.as_str()).collect()
}

#[test]
fn includes_common_languages_without_language_servers() {
    let engine = engine();
    for extension in [
        "rs", "kt", "kts", "scala", "java", "ts", "tsx", "js", "py", "go", "php", "rb", "c", "cpp", "cs",
        "swift", "sh", "json", "yaml", "toml", "sql", "html", "css",
    ] {
        assert_ne!(engine.language(&format!("example.{extension}")), "Plain Text", "{extension}");
    }
    assert_eq!(engine.language("unknown.extensionzzz"), "Plain Text");
}

#[test]
fn highlights_keywords_and_multiline_comment_context() {
    let engine = engine();
    let wanted = vec![4, 6];
    let source = "/*\nfirst\nsecond\nfn actually_a_comment() {}\n*/\nfn actual_code() {}\n";
    let result = engine.highlight("main.rs", source, &wanted).ok().unwrap();
    assert_eq!(result.len(), 2);
    assert_eq!(result[0].0, 4);
    assert_eq!(result[1].0, 6);
    let comment = &result[0].1;
    let code = &result[1].1;
    assert_ne!(comment[0].rgb, code[0].rgb);
    assert_eq!(line_text(comment), "fn actually_a_comment() {}");
}

#[test]
fn brackets_outside_literals_take_the_colour_of_their_depth() {
    let engine = engine();
    let source = "fn f() { g(\"(\"); }\n";
    let result = engine.highlight("main.rs", source, &vec![1]).ok().unwrap();
    let runs = &result[0].1;
    assert_eq!(line_text(runs), "fn f() { g(\"(\"); }");
    let colour_of = |text: &str| runs.iter().filter(|run| run.text == text).map(|run| run.rgb).collect::<Vec<_>>();
    let bracketed = |text: &str| {
        colour_of(text).into_iter().filter(|rgb| *rgb == bracket_color(0) || *rgb == bracket_color(1)).count()
    };
    // `{` opens at depth 0, after `f()` has closed.
    assert_eq!(colour_of("{"), vec![bracket_color(0)]);
    assert_eq!(colour_of("}"), vec![bracket_color(0)]);
    // The `(` of `f()` and of `g(` are coloured; the one inside the string literal is not.
    assert_eq!(bracketed("("), 2);
    assert_eq!(bracketed(")"), 2);
}

#[test]
fn plain_text_keeps_brackets_in_the_text_colour() {
    let engine = engine();
    let result = engine.highlight("notes.extensionzzz", "a (b) c\nnext\n", &vec![1, 2, 9]).ok().unwrap();
    assert_eq!(result.len(), 2);
    assert_eq!(result[0].0, 1);
    assert_eq!(result[0].1.len(), 1);
    assert_eq!(result[0].1[0].text, "a (b) c");
    assert_eq!(result[1].1[0].text, "next");
}

#[test]
fn nothing_asked_for_gives_nothing() {
    let engine = engine();
    assert!(engine.highlight("main.rs", "fn main() {}\n", &vec![]).ok().unwrap().is_empty());
}

#[test]
fn tabs_and_control_characters_are_cleaned() {
    let engine = engine();
    let result = engine.highlight("notes.extensionzzz", "\tx\u{7}\r\n", &vec![1]).ok().unwrap();
    assert_eq!(line_text(&result[0].1), "    x\\u{7}");
}

#[test]
fn bracket_colours_cycle_through_six() {
    assert_eq!(bracket_color(0), (235, 203, 139));
    assert_eq!(bracket_color(5), (163, 190, 140));
    assert_eq!(bracket_color(6), bracket_color(0));
    let mut brackets = Brackets::new();
    assert_eq!(brackets.visit('('), Some(0));
    assert_eq!(brackets.visit('['), Some(1));
    assert_eq!(brackets.visit(')'), None);
    assert_eq!(brackets.visit(']'), Some(1));
    assert_eq!(brackets.visit(')'), Some(0));
}

#[test]
fn comment_and_string_scopes_are_literals() {
    let names = |list: &[&str]| list.iter().map(|name| name.to_string()).collect::<Vec<_>>();
    assert!(in_literal(&names(&["source.rust", "comment.block.rust"])));
    assert!(in_literal(&names(&["source.rust", "string.quoted.double"])));
    assert!(in_literal(&names(&["comment"])));
    assert!(!in_literal(&names(&["source.rust", "comments.block"])));
    assert!(!in_literal(&names(&["source.rust", "meta.string"])));
    assert!(!in_literal(&names(&[])));
}

#[test]
fn syntax_is_chosen_by_file_name_then_extension_then_first_line() {
    let some = |name: &str| Some(name.to_string());
    assert_eq!(choose_syntax(some("Makefile"), some("Rust"), some("Bash")), "Makefile");
    assert_eq!(choose_syntax(None, some("Rust"), some("Bash")), "Rust");
    assert_eq!(choose_syntax(None, None, some("Bash")), "Bash");
    assert_eq!(choose_syntax(None, None, None), "Plain Text");
}

#[test]
fn the_diff_wins_over_a_changed_source() {
    let run = |text: &str| StyledText { text: text.to_string(), rgb: (1, 2, 3), bold: false, italic: false };
    let highlighted = vec![(2, vec![run("let "), run("x")]), (5, vec![run("y")])];
    assert_eq!(highlighted_line_for(&highlighted, Some(2), "let x"), Some(0));
    assert_eq!(highlighted_line_for(&highlighted, Some(5), "y"), Some(1));
    assert_eq!(highlighted_line_for(&highlighted, Some(5), "changed"), None);
    assert_eq!(highlighted_line_for(&highlighted, Some(3), "let x"), None);
    assert_eq!(highlighted_line_for(&highlighted, None, "y"), None);
}

#[test]
fn every_highlighted_line_carries_its_whole_text() {
    let engine = engine();
    let source = "// a comment (with brackets)\nfn main() {\n    let s = \"x(y)\"; /* c */ let v = vec![1, 2];\n}\n\n#[derive(Debug)]\nstruct S { a: u8 }\n";
    let count = source.lines().count();
    let wanted: Vec<usize> = (1..=count + 3).collect();
    let result = engine.highlight("main.rs", source, &wanted).ok().unwrap();
    assert_eq!(result.len(), count);
    for (n, line) in source.lines().enumerate() {
        assert_eq!(result[n].0, n + 1);
        assert_eq!(line_text(&result[n].1), line, "line {}", n + 1);
    }
    for language in ["example.py", "example.json", "example.toml", "example.sh", "example.html"] {
        let source = "a = \"b\" # (c)\n[d]\n<e f=\"g\">{h}</e>\n";
        let result = engine.highlight(language, source, &vec![1, 2, 3]).ok().unwrap();
        for (n, line) in source.lines().enumerate() {
            assert_eq!(line_text(&result[n].1), line, "{language} line {}", n + 1);
        }
    }
}
