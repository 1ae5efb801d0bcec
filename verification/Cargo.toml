[package]
name = "openpocket"
version = "0.1.0"
edition = "2021"
publish = false

[dependencies]
esp-hal = { version = "1", features = ["esp32s3", "unstable"] }
esp-println = { version = "*", features = ["esp32s3"] }
fontdue = "*"
libm = "0.2"
