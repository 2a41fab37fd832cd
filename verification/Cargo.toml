[package]
name = "wasm_cookies"
version = "0.1.0"
edition = "2021"
publish = false

[dependencies]
urlencoding = "1"
js-sys = "0.3"
wasm-bindgen = "0.2"
web-sys = { version = "0.3", features = ["Document", "HtmlDocument", "Window"] }
