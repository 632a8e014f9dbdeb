[package]
name = "forestools"
version = "0.1.0"
edition = "2021"
publish = false

[dependencies]
pinyin = "0.11"
png = "0.17"
percent-encoding = "2"
serde = { version = "1", features = ["derive"] }
serde_json = "1"
thiserror = "*"
image = { version = "*", default-features = false, features = ["png"] }
windows-sys = { version = "0.59", features = ["Win32_Foundation", "Win32_Graphics_Gdi", "Win32_UI_WindowsAndMessaging", "Win32_UI_Shell", "Win32_System_Com", "Win32_System_Environment"] }
eframe = { version = "0.29", default-features = false, features = ["glow", "x11", "default_fonts"] }
global-hotkey = "*"
tray-icon = "*"
