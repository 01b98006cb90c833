[package]
name = "plurtfm"
version = "0.1.0"
edition = "2021"
publish = false

[dependencies]
smallvec = "1"
colorous = "1"
rusqlite = { version = "*", features = ["bundled"] }
serde = { version = "1", features = ["derive"] }
tsify = { version = "*", features = ["js"] }
wasm-bindgen = "0.2"
web-sys = { version = "0.3", features = ["HtmlCanvasElement", "CustomEvent", "CustomEventInit", "KeyboardEvent", "MouseEvent", "PointerEvent", "WheelEvent", "WebGl2RenderingContext", "DomRect", "Event", "EventTarget", "Element", "HtmlElement"] }
three-d = "*"
three-d-asset = "*"
log = "0.4"
console_log = "*"
console_error_panic_hook = "*"
derive_more = { version = "*", features = ["display"] }
exn = "*"
wasm-bindgen-futures = "*"
