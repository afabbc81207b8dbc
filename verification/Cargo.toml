[package]
name = "audio_combiner"
version = "0.1.0"
edition = "2021"
publish = false

[dependencies]
futures = "0.3"
symphonia = { version = "0.5", features = ["mp3", "ogg", "vorbis", "wav", "pcm"] }
wasm-bindgen = "0.2"
wasm-bindgen-futures = "0.4"
wgpu = "25"
