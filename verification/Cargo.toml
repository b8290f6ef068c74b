[package]
name = "term_input_tree"
version = "0.1.0"
edition = "2021"
publish = false

[dependencies]
proc-macro2 = "1"
quote = "1"
syn = { version = "1", features = ["full"] }
tempfile = "3"
termbox_simple = "*"
tokio = { version = "1", features = ["sync", "rt"] }
