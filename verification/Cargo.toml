[package]
name = "sudoku-core"
version = "0.1.0"
edition = "2021"
publish = false

[dependencies]
rand = { version = "0.8", features = ["small_rng"] }
serde = { version = "1", features = ["derive"] }
serde_json = "1"
axum = "0.7"
tokio = { version = "1", features = ["macros", "rt-multi-thread", "net"] }
tower-http = { version = "0.5", features = ["cors", "trace"] }
tracing = "0.1"
tracing-subscriber = { version = "0.3", features = ["env-filter"] }
include_dir = "0.7"
mime_guess = "2"
yew = { version = "0.21", features = ["csr"] }
gloo-net = "0.5"
gloo-timers = "0.3"
wasm-bindgen-futures = "0.4"
