[package]
name = "expense_ledger"
version = "0.1.0"
edition = "2021"
publish = false

[dependencies]
chrono = "0.4"
indexmap = "2"
ratatui = "0.29"
crossterm = "0.28"
tui-textarea = "0.7"
rusqlite = { version = "0.32", features = ["bundled", "chrono"] }
color-eyre = "0.6"
