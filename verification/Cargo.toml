[package]
name = "sfinder_gui_lib"
version = "0.1.0"
edition = "2021"
publish = false

[dependencies]
base64 = "=0.22.1"
image = { version = "=0.25.10", default-features = false, features = ["png", "jpeg", "gif", "bmp", "webp", "ico", "tiff", "pnm", "tga", "qoi", "hdr", "dds", "ff", "exr"] }
serde = { version = "=1.0.229", features = ["derive"] }
screenshots = "=0.8.10"
