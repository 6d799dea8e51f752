[package]
name = "step_sequencer"
version = "0.1.0"
edition = "2021"
publish = false

[dependencies]
egui = { version = "0.22", default-features = false }
hound = "3.5"
rodio = { version = "0.17", default-features = false }
serde = { version = "1", features = ["derive"] }
