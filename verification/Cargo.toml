[package]
name = "opencv-ui-cli"
version = "0.1.0"
edition = "2021"
publish = false

[dependencies]
anyhow = "1"
clap = { version = "4", features = ["derive"] }
opencv = "0.94"
resvg = "0.45"
serde = { version = "1", features = ["derive"] }
serde_json = "1"
toml = "0.8"
usvg = "0.45"
