[package]
name = "hexo_ai"
version = "0.1.0"
edition = "2021"
publish = false

[dependencies]
hexo-engine = "=0.1.0"
rand = "=0.9.5"
rand_chacha = "=0.9.0"
rayon = "=1.12.0"
eframe = { version = "=0.32.3", default-features = false, features = ["glow", "x11", "default_fonts"] }
