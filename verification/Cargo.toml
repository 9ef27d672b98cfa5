[package]
name = "sonora"
version = "0.1.0"
edition = "2021"
publish = false

[dependencies]
anyhow = "1"
ashpd = { version = "=0.13.13", features = ["inhibit"] }
cpal = "0.17"
log = "0.4"
rodio = { version = "0.22", default-features = false, features = ["playback"] }
tokio = { version = "1", features = ["sync", "rt"] }
windows-sys = { version = "=0.61.2", features = ["Win32_System_Power"] }
