[package]
name = "clipboard_history"
version = "0.1.0"
edition = "2021"
publish = false

[dependencies]
dirs = "6"
fs2 = "0.4"
image = "0.25"
ksni = { version = "0.3", features = ["blocking"] }
libc = "0.2"
resvg = "*"
tokio = { version = "1", features = ["rt", "net", "io-util", "sync"] }
url = "2"
wayland-client = "0.31"
wayland-protocols = { version = "0.32", features = ["client", "staging"] }

[dev-dependencies]
tempfile = "3"
