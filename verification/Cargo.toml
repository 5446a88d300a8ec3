[package]
name = "sqlite_perf"
version = "0.1.0"
edition = "2021"
publish = false

[dependencies]
diesel = { version = "1.4", features = ["sqlite"] }
libsqlite3-sys = { version = "0.22", features = ["bundled"] }
