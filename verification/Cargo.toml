[package]
name = "somadoc"
version = "0.1.0"
edition = "2021"
publish = false

[dependencies]
mdxport = { version = "=0.3.2", default-features = false }
base64 = "=0.22.1"
serde = { version = "=1.0.229", features = ["derive"] }
serde_json = "=1.0.154"
serde_yaml = "=0.9.34"
thiserror = "=2.0.21"
tokio = { version = "=1.54.1", features = ["rt", "time"] }
async-trait = "=0.1.92"
typst = "=0.13.1"
typst-pdf = "=0.13.1"
typst-svg = "=0.13.1"
typst-assets = { version = "=0.13.1", features = ["fonts"] }
