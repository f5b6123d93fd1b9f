[package]
name = "ts_macro"
version = "0.1.0"
edition = "2021"
publish = false

[dependencies]
proc-macro2 = "1"
quote = "1"
syn = { version = "2", features = ["full", "visit", "extra-traits"] }
regex = "1"
lazy_static = "1"
unicode-xid = "0.2"
