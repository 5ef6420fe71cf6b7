[package]
name = "markup_tui"
version = "0.1.0"
edition = "2021"
publish = false

[dependencies]
roxmltree = "*"
parking_lot = "*"
ratatui = "*"
crossterm = "*"
color-eyre = "*"
tokio = { version = "*", features = ["macros", "rt-multi-thread"] }
