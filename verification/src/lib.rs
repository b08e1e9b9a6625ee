pub mod text;
pub mod git;
pub mod refresh;
pub mod undo;
pub mod todo;
pub mod calendar;
pub mod til;
pub mod til_keys;
pub mod til_view;
pub mod tokens;
pub mod diff_view;
pub mod review;
pub mod input_view;
pub mod syntax;
pub mod matching;
pub mod file_tree;
pub mod spans;
