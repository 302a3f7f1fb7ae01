[package]
name = "talkdedsec_visual"
version = "0.1.0"
edition = "2021"
publish = false

[dependencies]
global-hotkey = "=0.7.0"
serde = { version = "=1.0.229", features = ["derive"] }
serde_json = "=1.0.154"
rfd = { version = "=0.15.4", default-features = false, features = ["gtk3"] }
tray-icon = "=0.21.3"
windows = { version = "0.62", features = ["Win32_Graphics_Gdi", "Win32_System_Registry", "Win32_UI_Shell", "Win32_UI_WindowsAndMessaging"] }
