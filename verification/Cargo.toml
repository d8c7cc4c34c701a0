[package]
name = "system_ocr"
version = "1.0.0"
edition = "2021"
publish = false

[dependencies]
anyhow = "=1.0.104"
file_type = "=0.8.11"
futures = "=0.3.34"
napi = { version = "=3.16.1", features = ["error_anyhow"] }
napi-derive = "=3.7.0"
objc2 = "=0.6.5"
objc2-core-foundation = "=0.3.2"
objc2-foundation = "=0.3.2"
objc2-vision = "=0.3.2"
serde = { version = "=1.0.229", features = ["derive"] }
serde_json = "=1.0.154"
thiserror = "=2.0.21"
windows = { version = "=0.62.2", features = ["Foundation", "Foundation_Collections", "Globalization", "Graphics_Imaging", "Media_Ocr", "Storage", "Storage_Streams"] }
