[package]
name = "fleet_suggest"
version = "0.1.0"
edition = "2021"
publish = false

[dependencies]
serde = { version = "1", features = ["derive"] }
serde_json = "1"
md5 = "0.7"
aes = "0.8"
cfb-mode = "0.8"
base64 = "0.22"
flate2 = "1"
dioxus = { version = "0.6", default-features = false, features = ["web", "macro", "html", "signals", "hooks", "launch"] }
gloo-net = { version = "0.6", default-features = false, features = ["http", "json"] }
sqlite-wasm-rs = "*"
web-sys = { version = "0.3", features = ["console", "Window", "Document", "Element", "KeyboardEvent", "EventTarget"] }
wasm-bindgen = "0.2"
wasm-bindgen-futures = "0.4"
reqwest = { version = "0.12", default-features = false, features = ["blocking"] }
toml = "0.8"
indicatif = "0.17"
rayon = "1"
ryu = "1"
