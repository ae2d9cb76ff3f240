[package]
name = "mailviewer_core"
version = "0.1.0"
edition = "2021"
publish = false

[dependencies]
ammonia = "4"
base64 = "0.22"
encoding_rs = "0.8"
futures-util = "0.3"
gio = "*"
glib = "*"
gmime = "*"
hex = "0.4"
lazy_static = "1"
log = "0.4"
msg_parser = "*"
uuid = { version = "1", features = ["v4"] }
