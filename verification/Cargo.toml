[package]
name = "axii"
version = "0.1.0"
edition = "2021"
publish = false

[dependencies]
rayon = "=1.12.0"
serde = { version = "=1.0.229", features = ["derive"] }
serde_json = "=1.0.154"
vdf-reader = "=0.3.4"
clap = { version = "=4.6.7", features = ["derive"] }
tracing = "=0.1.44"
tracing-appender = "=0.2.5"
tracing-subscriber = "=0.3.23"
windows = { version = "=0.56.0", features = ["Win32_Foundation", "Win32_Security", "Win32_System_Console", "Win32_System_LibraryLoader", "Win32_System_SystemServices", "Win32_System_Threading", "Win32_System_Memory", "Win32_System_Diagnostics_Debug", "Win32_System_ProcessStatus"] }
windows-registry = "=0.1.2"
minhook = "=0.9.0"
