[package]
name = "gix_index"
version = "0.1.0"
edition = "2021"
publish = false

[dependencies]
bstr = "=1.13.1"
gix-bitmap = "=0.6.1"
gix-hash = { version = "=0.28.1", features = ["sha1", "sha256"] }
