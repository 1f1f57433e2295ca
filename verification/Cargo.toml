[package]
name = "tt_splat_viewer"
version = "0.1.0"
edition = "2021"
publish = false

[dependencies]
bytemuck = { version = "1", features = ["derive"] }
cfg-if = "1"
console_error_panic_hook = "0.1"
console_log = "1"
env_logger = { version = "0.11", default-features = false }
glam = "0.29"
image = { version = "0.25", default-features = false, features = ["png"] }
log = "0.4"
pollster = "0.3"
serde = { version = "1", features = ["derive"] }
serde_json = "1"
wasm-bindgen = "0.2"
wasm-bindgen-futures = "0.4"
web-sys = { version = "0.3", features = ["Document", "Element", "HtmlCanvasElement", "HtmlElement", "Node", "Window"] }
wgpu = { version = "0.20", default-features = false, features = ["wgsl"] }
