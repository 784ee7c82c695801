[package]
name = "tensorfs_core"
version = "0.1.0"
edition = "2021"
publish = false

[dependencies]
base64 = "0.22"
fs4 = "0.13"
libc = "0.2"
serde = { version = "1", features = ["derive"] }
serde_json = "1"
sha2 = "0.10"
thiserror = "2"
turso = "*"
unicode-normalization = "0.1"
ureq = { version = "2", features = ["json"] }
