[package]
name = "filkoll"
version = "0.2.7"
edition = "2021"
publish = false

[dependencies]
hashbrown = "=0.15.5"
smallvec = "=1.16.4"
strsim = "=0.11.1"
regex = "=1.13.1"
camino = "=1.2.6"
bstr = "=1.13.1"
rust-ini = "=0.21.3"
itertools = "=0.14.0"
compact_str = "=0.9.1"
rkyv = "=0.8.18"
zerocopy = { version = "=0.8.63", features = ["derive"] }
memmap2 = "=0.9.12"
flate2 = "=1.1.10"
tar = "=0.4.46"
zstd = "0.13"
xz2 = "0.1"
rayon = "=1.12.0"
clap = { version = "=4.6.7", features = ["derive"] }
eyre = "=0.6.14"
anstream = "=0.6.21"
anstyle = "=1.0.14"
type_hash = "=0.3.0"
tracing = "=0.1.44"
tracing-subscriber = { version = "=0.3.23", features = ["env-filter"] }
