[package]
name = "bones"
version = "0.1.0"
edition = "2021"
publish = false

[dependencies]
anyhow = "1"
thiserror = "1"
getopts = "0.2"
url = "2"
gloo = "*"
wasm-bindgen = "0.2"
console_error_panic_hook = "0.1"
web-sys = { version = "0.3", features = ["Attr", "CanvasRenderingContext2d", "Document", "Element", "Event", "EventTarget", "HtmlCanvasElement", "HtmlElement", "HtmlInputElement", "Location", "NamedNodeMap", "PointerEvent", "Touch", "TouchEvent", "TouchList", "WheelEvent", "Window", "console"] }
