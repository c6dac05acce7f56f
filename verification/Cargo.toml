[package]
name = "rsync_archive"
version = "0.1.0"
edition = "2021"
publish = false

[dependencies]
crc32fast = "=1.5.4"
lzma-rust2 = "=0.25.0"
zstd = { version = "=0.14.3", features = ["zstdmt"] }
lz4_flex = "=0.14.0"
zeekstd = "=0.6.3"
sevenz-rust2 = "=0.24.2"
clap = { version = "=4.6.7", features = ["derive"] }
walkdir = "=2.5.0"
tracing = "=0.1.44"
tracing-subscriber = { version = "=0.3.23", features = ["env-filter"] }
libc = "=0.2.191"
thiserror = "=2.0.21"

[dev-dependencies]
tempfile = "=3.27.0"
