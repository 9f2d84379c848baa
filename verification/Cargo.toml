[package]
name = "rusty_qr"
version = "0.1.0"
edition = "2021"
publish = false

[dependencies]
qrcode = { version = "0.14", default-features = false }
base64 = "0.22"
image = { version = "0.24", default-features = false, features = ["png", "jpeg"] }
toml = "0.8"
serde = { version = "1", features = ["derive"] }
serde_json = "1"
ureq = { version = "2", default-features = false, features = ["json", "gzip"] }
zip = { version = "2", default-features = false, features = ["deflate"] }
printpdf = { version = "0.7", default-features = false }
resvg = { version = "0.42", default-features = false, features = ["text", "system-fonts"] }
egui = { version = "0.28", default-features = false, features = ["default_fonts"] }
