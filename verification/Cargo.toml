[package]
name = "asseteer"
version = "0.1.0"
edition = "2021"
publish = false

[dependencies]
zip = { version = "=2.6.1", default-features = false, features = ["deflate"] }
base64 = "=0.22.1"
chrono = { version = "=0.4.45", default-features = false, features = ["clock"] }
windows-sys = { version = "0.59", features = ["Win32_Foundation", "Win32_System_SystemInformation"] }
