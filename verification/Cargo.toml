[package]
name = "rust-md-editor"
version = "1.0.0"
edition = "2021"
publish = false

[dependencies]
pulldown-cmark = { version = "=0.12.2", default-features = false }
sha2 = "=0.10.9"
hex = "=0.4.3"
unicode-width = "=0.2.3"
syntect = { version = "5", default-features = false, features = ["default-syntaxes", "default-themes", "regex-fancy"] }
eframe = { version = "0.29", default-features = false, features = ["default_fonts", "glow", "x11"] }
egui = "0.29"
rfd = { version = "0.15", default-features = false, features = ["gtk3"] }
