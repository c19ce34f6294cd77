[package]
name = "flappy_bird"
version = "0.1.0"
edition = "2021"
publish = false

[dependencies]
rand = "0.9"
ratatui = "0.30"
crossterm = "0.29"
tui-tree-widget = "0.24"
wasm-bindgen = "0.2"
wasm-bindgen-futures = "0.4"
web-sys = { version = "0.3", features = ["console"] }
