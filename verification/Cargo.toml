[package]
name = "touchpad_raw"
version = "0.1.0"
edition = "2021"
publish = false

[dependencies]
windows = { version = "0.62", features = ["Win32_Devices_HumanInterfaceDevice", "Win32_Foundation", "Win32_Graphics_Gdi", "Win32_System_Console", "Win32_System_LibraryLoader", "Win32_System_SystemServices", "Win32_UI_Input", "Win32_UI_WindowsAndMessaging"] }
