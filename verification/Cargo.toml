[package]
name = "memex_refresh"
version = "0.1.0"
edition = "2021"
publish = false

[dependencies]
anyhow = "1"
chrono = "0.4"
directories = "5"
fsevent-sys = "4"
getrandom = "0.3"
globset = "0.4"
libc = "0.2"
rayon = "1"
rusqlite = { version = "0.32", features = ["bundled"] }
serde = { version = "1", features = ["derive"] }
serde_json = "1"
sha2 = "0.10"
simd-json = "0.14"
tantivy = "0.22"
tempfile = "3"
walkdir = "2"
