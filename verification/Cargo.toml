[package]
name = "tab_search"
version = "0.1.0"
edition = "2021"
publish = false

[dependencies]
sublime_fuzzy = "0.7"
futures = "0.3"
js-sys = "0.3"
serde = { version = "1", features = ["derive"] }
serde-wasm-bindgen = "0.6"
wasm-bindgen = "0.2"
wasm-bindgen-futures = "0.4"
