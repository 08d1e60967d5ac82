[package]
name = "ykdt"
version = "0.1.0"
edition = "2021"
publish = false

[dependencies]
kradical_parsing = "*"
serde_json = "1"
ureq = { version = "2", features = ["json"] }
argparse = "0.2"
atty = "0.2"
libc = "0.2"
windows-sys = { version = "0.48", features = ["Win32_Foundation", "Win32_System_Console", "Win32_UI_Shell"] }
