[package]
name = "audio-core"
version = "0.1.0"
edition = "2021"
publish = false

[dependencies]
anyhow = "1"
hound = "3.5"
rubato = "0.15"
symphonia = { version = "0.5", features = ["mp3"] }
