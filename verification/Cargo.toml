[package]
name = "ferro"
version = "0.1.0"
edition = "2021"
publish = false

[dependencies]
serde = { version = "1", features = ["derive"] }
serde_json = "1"
tokio = { version = "1", features = ["full"] }
redb = "2"
csv = "1"
libc = "0.2"
libm = "0.2"
rayon = "1"
sysinfo = "0.30"
