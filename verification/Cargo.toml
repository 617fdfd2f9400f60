[package]
name = "terrain_tiles"
version = "0.1.0"
edition = "2021"
publish = false

[dependencies]
geom = "*"
rustc-hash = "*"
wasm-bindgen = "*"
console_error_panic_hook = "*"
