[package]
name = "rast"
version = "0.1.0"
edition = "2021"

[dependencies]
syn = { version = "=2.0.119", features = ["full", "visit", "extra-traits"] }
# Named for its `span-locations` feature alone: a rule that reports the line
# of a name reads that line from a span, and the library calls nothing of it.
proc-macro2 = { version = "=1.0.107", features = ["span-locations"] }
