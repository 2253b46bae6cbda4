[package]
name = "lx_plugins"
version = "0.1.0"
edition = "2021"
publish = false

[dependencies]
lx-aura = "=0.12.0"
lx-aura-dsp = "=0.12.0"
realfft = "3"
serde = { version = "1", features = ["derive"] }
serde_json = "1"
tracing = "0.1"

[dev-dependencies]
lx-aura-test = "=0.12.0"
