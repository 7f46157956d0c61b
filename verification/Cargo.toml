[package]
name = "flowbrake"
version = "0.1.0"
edition = "2021"
publish = false

[dependencies]
libloading = "0.8"
raw-window-handle = "0.6"
slint = { version = "~1.8.0", default-features = false, features = ["std", "compat-1-2", "raw-window-handle-06"] }
thiserror = "2"
tray-icon = { version = "~0.19.3", default-features = false }
windows-sys = { version = "0.59", features = ["Win32_Foundation", "Win32_Graphics_Dwm", "Win32_Graphics_Gdi", "Win32_NetworkManagement_IpHelper", "Win32_Networking_WinSock", "Win32_Security", "Win32_Storage_FileSystem", "Win32_System_ProcessStatus", "Win32_System_Threading", "Win32_UI_Input_KeyboardAndMouse", "Win32_UI_Shell", "Win32_UI_WindowsAndMessaging"] }
