[package]
name = "rsou"
version = "0.1.0"
edition = "2021"
publish = false

[dependencies]
anydoc = "0.2.4"
anyhow = "1"
dunce = "1"
eframe = { version = "*", default-features = false, features = ["default_fonts", "glow", "x11"] }
egui_extras = { version = "*", default-features = false }
egui_ltreeview = "*"
encoding_rs = "0.8"
jieba-rs = "*"
libc = "0.2"
log = "0.4"
rayon = "1"
rfd = { version = "*", default-features = false, features = ["xdg-portal"] }
rusqlite = { version = "*", features = ["bundled"] }
rusqlite-ext = "*"
sha2 = "0.10"
zip = { version = "*", default-features = false, features = ["deflate"] }
