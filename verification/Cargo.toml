[package]
name = "redis-game"
version = "0.1.0"
edition = "2021"
publish = false

[dependencies]
ansi-to-html = "=0.2.4"
arc-swap = "=1.9.3"
axum = { version = "=0.8.9", features = ["ws"] }
bebop = "=3.2.3"
color-eyre = "=0.6.5"
eframe = { version = "=0.32.3", default-features = false, features = ["glow", "x11"] }
egui = "=0.32.3"
flume = "=0.11.1"
futures-util = "=0.3.34"
indexmap = "=2.14.2"
keyframe = "=1.1.1"
rand = "=0.9.5"
redis = { version = "=1.8.0", features = ["tokio-comp"] }
tokio = { version = "=1.54.1", features = ["full"] }
tower-http = { version = "=0.6.11", features = ["catch-panic", "fs"] }
tracing = "=0.1.44"
tracing-error = "=0.2.1"
tracing-subscriber = { version = "=0.3.23", features = ["env-filter"] }
wasm-bindgen-futures = "=0.4.79"
web-sys = { version = "=0.3.106", features = ["Window", "Location", "Document", "Element", "HtmlDivElement", "console"] }
web-time = "=1.1.0"
ws_stream_wasm = "=0.7.5"
