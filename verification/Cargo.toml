[package]
name = "ardon_r2"
version = "0.2.0"
edition = "2021"
publish = false

[dependencies]
rayon = "1"
cranelift = "0.105"
cranelift-jit = "0.105"
cranelift-module = "0.105"
image = { version = "0.24", default-features = false, features = ["png"] }
resvg = { version = "0.43", default-features = false, features = ["text"] }
usvg = { version = "0.43", default-features = false, features = ["text", "system-fonts"] }
tiny-skia = "0.11"
rfd = { version = "0.14", default-features = false, features = ["xdg-portal", "tokio"] }
