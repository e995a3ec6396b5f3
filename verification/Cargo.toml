[package]
name = "polyfoni"
version = "0.1.0"
edition = "2021"
publish = false

[dependencies]
console_error_panic_hook = "0.1"
cpal = "0.15"
oxisynth = "=0.0.5"
wasm-bindgen = "0.2"
web-sys = { version = "0.3", features = ["console"] }
workerpool = "1"
