[package]
name = "waffle"
version = "0.1.0"
edition = "2021"
publish = false

[dependencies]
leptos = { version = "0.7", features = ["csr"] }
wasm-bindgen = "0.2"
web-sys = { version = "0.3", features = ["HtmlElement", "KeyboardEvent", "EventTarget"] }
console_error_panic_hook = "0.1"
