[package]
name = "wavetui"
version = "0.1.0"
edition = "2021"
publish = false

[dependencies]
anyhow = "=1.0.104"
cpal = "=0.18.2"
crossterm = "=0.29.0"
dasp = { version = "=0.11.0", features = ["ring_buffer", "signal", "interpolate", "interpolate-sinc"] }
dasp_interpolate = { version = "=0.11.0", features = ["sinc"] }
dasp_signal = "=0.11.0"
fundsp = "=0.23.0"
ndarray = "=0.17.2"
non-empty-slice = "=0.6.0"
ratatui = "=0.30.2"
rodio = { version = "=0.23.0", default-features = false, features = ["wav"] }
rusqlite = { version = "=0.41.1", features = ["array", "bundled"] }
rustfft = "=6.4.1"
spectrograms = "=2.1.3"
tracing = "=0.1.44"
