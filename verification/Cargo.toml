[package]
name = "rscribus"
version = "0.1.0"
edition = "2021"
publish = false

[dependencies]
uuid = { version = "=1.29.0", features = ["v4"] }
getrandom = "=0.4.3"
serde = { version = "=1.0.229", features = ["derive"] }
serde_json = "=1.0.154"
zip = "=2.6.1"
relm4 = { version = "=0.9.1", features = ["libadwaita"] }
gtk4 = { version = "=0.9.7", features = ["v4_10"] }
cairo-rs = "=0.20.12"
pango = "=0.20.12"
pangocairo = "=0.20.10"
librsvg = "=2.63.4"
open = "=5.4.5"
