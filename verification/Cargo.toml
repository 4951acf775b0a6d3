[package]
name = "wasm_call"
version = "0.1.0"
edition = "2021"
publish = false

[dependencies]
anyhow = "=1.0.104"
wasmtime = "=48.0.5"
wasmtime-wasi = "=48.0.5"
