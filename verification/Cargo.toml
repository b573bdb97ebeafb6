[package]
name = "quic_buffer"
version = "0.1.0"
edition = "2021"
publish = false

[dependencies]
s2n-quic-core = { version = "=0.91.0", default-features = false }
criterion = { version = "=0.5.1", default-features = false }
libc = "0.2"
