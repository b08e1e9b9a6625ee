[package]
name = "fruit_tui"
version = "0.1.0"
edition = "2021"
publish = false

[dependencies]
chrono = "*"
unicode-segmentation = "*"
unicode-width = "*"
similar = "*"
ratatui = "*"
tui-input = "*"
rusqlite = { version = "*", features = ["bundled"] }
clap = { version = "*", features = ["derive"] }
serde = { version = "*", features = ["derive"] }
serde_json = "*"
anyhow = "*"
thiserror = "*"
dirs = "*"
textwrap = "*"
two-face = "*"
