[package]
name = "dmi_codec"
version = "0.1.0"
edition = "2021"
publish = false

[dependencies]
image = { version = "*", default-features = false }
crc32fast = "*"
arboard = { version = "*", default-features = false }
native-dialog = "*"
sysinfo = "*"
webbrowser = "*"
