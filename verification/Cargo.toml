[package]
name = "breach_solver"
version = "0.1.0"
edition = "2021"
publish = false

[dependencies]
config = "=0.11.0"
lazy_static = "=1.5.1"
serde = { version = "=1.0.229", features = ["derive"] }
opencv = "=0.101.1"
leptess = "=0.14.0"
dxgcap = "=0.2.4"
windows = { version = "=0.48.0", features = ["Win32_Foundation", "Win32_Graphics_Gdi", "Win32_System_LibraryLoader", "Win32_UI_WindowsAndMessaging"] }
