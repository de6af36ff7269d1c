[package]
name = "oxihipo"
version = "0.1.0"
edition = "2021"
publish = false

[dependencies]
lz4_flex = { version = "0.14", default-features = false, features = ["std", "safe-encode", "safe-decode", "checked-decode"] }
flate2 = { version = "1", default-features = false, features = ["zlib-rs"] }
glob = "0.3"
rayon = "1"
thiserror = "2"
bytemuck = "1"
