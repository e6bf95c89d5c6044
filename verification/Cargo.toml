[package]
name = "tomesole"
version = "0.1.0"
edition = "2021"
publish = false

[dependencies]
ureq = "=3.5.1"
ratatui = "=0.29.0"
crossterm = "=0.28.1"
windows-sys = { version = "=0.61.2", features = ["Win32_UI_Shell", "Win32_UI_WindowsAndMessaging"] }
