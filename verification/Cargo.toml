[package]
name = "artifacts"
version = "0.1.0"
edition = "2021"
publish = false

[dependencies]
base64 = "0.21"
wasm-bindgen = "0.2"
web-sys = { version = "0.3", features = ["Window", "Document", "Element", "HtmlElement", "HtmlCanvasElement", "HtmlCollection", "CanvasRenderingContext2d", "Performance", "Node", "console"] }
three-d = { version = "0.17", features = ["egui-gui"] }
three-d-asset = "0.7"
winit = "0.28"
