# fruit_tui

Three terminal tools and the verified library they stand on:

- `todo`: todos in projects, nested up to three levels, with completion that follows the
  tree;
- `til`: a weekly journal of what was learned, one Monday-to-Sunday week at a time;
- `diff`: a Git diff viewer with test files hidden by default, a file tree, and side-by-side
  or unified views.

## Layout

- `src/` is the library, verified with Verus: the rules and computations of the tools,
  each public function with a contract, and the laws that span several functions as proof
  functions named `law_...`.
  - `todo`: nesting order, depth, completion rules, the target project of a new todo.
  - `calendar`, `til`, `til_keys`, `til_view`, `undo`, `input_view`: days and weeks, entry
    validation and Markdown output, key bindings, the week on screen, the undo history, the
    cursor of a text box.
  - `git`, `refresh`, `review`, `file_tree`, `diff_view`, `tokens`, `spans`, `matching`,
    `syntax`: reading `git` output, the refresh protocol, the review screen's decisions,
    the file tree, the rows of the diff panels, tokens and wrapping of code, cuts of styled
    text, word diffs, and syntax highlighting (syntect's parser and theme behind small
    trusted wrappers, whose scope changes and run colours are named, not computed here;
    comment and string scopes, bracket depth, and how the runs cut and make up each line
    are verified).
  - `text`: strings, lines and numbers.
- `app/` holds what the library does not: the terminal, SQLite, running `git`, the clipboard,
  argument parsing, JSON output, the shared highlighter instance and the terminal styles of
  its runs, and the similarity alignment of changed lines (which works in floating point).
- `tests/` runs the library on concrete values.

Run a tool with its name first: `fruit_tui todo list`, `fruit_tui til`, `fruit_tui diff main`.
