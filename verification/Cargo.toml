[package]
name = "tiny_llm"
version = "0.1.0"
edition = "2021"
publish = false

[dependencies]
rayon = "1"
serde = { version = "1", features = ["derive"] }
windows-sys = { version = "0.59", features = ["Win32_System_Console"] }
