[package]
name = "constat"
version = "0.1.0"
edition = "2021"
publish = false

[dependencies]
chrono = "0.4"
clap = "2"
git2 = { version = "0.18", default-features = false }
glob = "0.3"
indicatif = "0.17"
open = "5"
plotters = { version = "0.3", default-features = false, features = ["svg_backend", "bitmap_backend", "bitmap_encoder", "chrono", "area_series", "line_series"] }
tempfile = "3"
