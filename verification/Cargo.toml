[package]
name = "grafdag"
version = "0.1.0"
edition = "2021"
publish = false

[dependencies]
aargvark = "=0.13.0"
console_error_panic_hook = "=0.1.7"
ezing = "=0.2.1"
gloo-events = "=0.3.0"
gloo-render = "=0.3.0"
gloo-timers = "=0.4.0"
gloo-utils = "=0.3.0"
http = "=1.5.0"
http-body-util = "=0.1.5"
htwrap = "=0.18.1"
hyper = { version = "=1.12.0", features = ["server", "http1"] }
hyper-util = { version = "=0.1.21", features = ["tokio"] }
js-sys = "=0.3.107"
lunk = "=0.3.2"
mime_guess = "=2.0.5"
open = "=5.4.5"
rooting = "=0.2.0"
rust-embed = { version = "=8.13.0", features = ["interpolate-folder-path"] }
serde = { version = "=1.0.229", features = ["derive"] }
serde_json = "=1.0.154"
tokio = { version = "=1.54.1", features = ["macros", "rt-multi-thread", "net", "fs", "sync"] }
wasm-bindgen = "=0.2.130"
wasm-bindgen-futures = "=0.4.80"
web-sys = { version = "=0.3.107", features = ["Window", "Document", "Element", "HtmlElement", "Event", "MouseEvent", "KeyboardEvent", "WheelEvent", "SvgElement", "console", "CssStyleDeclaration", "DomRect", "HtmlInputElement", "MediaQueryList", "Node", "EventTarget", "FocusEvent"] }

