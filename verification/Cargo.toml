[package]
name = "how"
version = "0.1.0"
edition = "2021"
publish = false

[dependencies]
clap = { version = "4", features = ["derive"] }
color-eyre = "0.6"
crossterm = "0.28"
dirs = "5"
ratatui = "0.29"
ratatui-macros = "0.6"
rust-fuzzy-search = "0.1"
serde = { version = "1", features = ["derive"] }
toml = "0.8"
tui-textarea = "0.7"
tui-widget-list = "0.13"
