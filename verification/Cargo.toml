[package]
name = "tei_viewer"
version = "0.1.0"
edition = "2021"
publish = false

[dependencies]
quick-xml = "=0.31.0"
serde = { version = "=1.0.229", features = ["derive"] }
yew = { version = "=0.21.0", features = ["csr"] }
gloo = "=0.12.0"
gloo-net = "=0.7.0"
wasm-bindgen = "=0.2.129"
wasm-bindgen-futures = "=0.4.79"
js-sys = "=0.3.106"
log = "=0.4.34"
wasm-logger = "=0.2.0"
web-sys = { version = "=0.3.106", features = ["Window", "Document", "Location", "Element", "HtmlElement", "HtmlImageElement", "HtmlSelectElement", "Event", "EventTarget", "MouseEvent", "PointerEvent", "WheelEvent", "KeyboardEvent", "DomRect", "Node", "CssStyleDeclaration"] }
