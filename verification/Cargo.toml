[package]
name = "cove_image_viewer"
version = "0.1.0"
edition = "2021"
publish = false

[dependencies]
sha2 = "0.10"
image = { version = "0.25", default-features = false, features = ["png", "jpeg", "gif", "bmp", "tiff", "webp", "ico", "tga", "pnm", "dds", "exr", "hdr", "qoi", "ff"] }
heic = "*"
psd = "*"
pcx = "*"
kamadak-exif = "*"
jxl-oxide = "*"
rawloader = "*"
usvg = "*"
resvg = "*"
tiny-skia = "*"
openjp2 = "*"
serde_json = "1"
ureq = { version = "2", features = ["json"] }
clap = { version = "4", features = ["derive"] }
egui = "0.31"
