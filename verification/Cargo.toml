[package]
name = "papyrus_pdf"
version = "0.1.0"
edition = "2021"
publish = false

[dependencies]
aes = "=0.8.4"
cbc = { version = "=0.1.2", features = ["alloc"] }
cms = "=0.2.3"
der = "=0.7.10"
flate2 = "=1.1.10"
md-5 = "=0.10.6"
rsa = "=0.9.10"
sha1 = "=0.10.7"
sha2 = "=0.10.9"
ttf-parser = "=0.25.1"
tiny-skia = "=0.11.4"
wgpu = "=22.1.0"
lyon = "=1.0.19"
bytemuck = { version = "=1.25.2", features = ["derive"] }
pollster = "=0.3.0"
thiserror = "=1.0.69"
zune-jpeg = { version = "=0.5.15", default-features = false, features = ["std"] }
