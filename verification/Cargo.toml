[package]
name = "grid_replay"
version = "0.1.0"
edition = "2021"
publish = false

[dependencies]
rdev = "=0.5.3"
rfd = { version = "=0.17.2", default-features = false, features = ["xdg-portal"] }
windows = { version = "0.58.0", features = ["Win32_UI_Input_KeyboardAndMouse", "Win32_UI_WindowsAndMessaging"] }
