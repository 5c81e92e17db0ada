[package]
name = "server-start"
version = "0.2.0"
edition = "2021"
publish = false

[dependencies]
dirs = "*"
serde = { version = "1", features = ["derive"] }
toml = "*"
tray-icon = "*"
winit = "0.30"
winreg = "*"
windows = { version = "0.58", features = ["Win32_Foundation", "Win32_NetworkManagement_IpHelper", "Win32_Networking_WinSock", "Win32_UI_WindowsAndMessaging"] }
