[package]
name = "broker"
version = "0.6.0"
edition = "2021"
publish = false

[dependencies]
bytes = "1"
libc = "0.2"
regex = "1"
tokio = { version = "1", features = ["full"] }
uuid = { version = "1", features = ["v4"] }
windows-sys = { version = "0.59", features = ["Win32_Foundation", "Win32_System_Memory"] }
