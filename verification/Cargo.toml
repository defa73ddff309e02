[package]
name = "cadrum"
version = "0.8.17"
edition = "2021"
publish = false

[dependencies]
glam = "=0.34.2"
thiserror = "=2.0.21"
anyhow = "=1.0.104"
tiny-skia = "=0.12.0"
wasm-bindgen = "=0.2.130"
wasmtime = "=44.0.3"
wasmtime-wasi = "=44.0.3"

[dev-dependencies]
