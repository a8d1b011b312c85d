[package]
name = "mimirsbrunn"
version = "0.1.0"
edition = "2021"
publish = false

[dependencies]
csv = "1"
failure = "0.1"
geo = "*"
libflate = "*"
osmpbfreader = "*"
par-map = "0.1"
serde = "1"
slog-scope = "4"
