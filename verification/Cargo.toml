[package]
name = "git_of_theseus"
version = "0.1.0"
edition = "2021"
publish = false

[dependencies]
anyhow = "1"
chrono = "0.4"
clap = { version = "4", features = ["derive"] }
globset = "0.4"
indicatif = "0.17"
plotters = { version = "0.3", default-features = false, features = ["bitmap_backend", "bitmap_encoder", "line_series", "ttf", "fontconfig-dlopen"] }
rayon = "1"
serde = { version = "1", features = ["derive"] }
serde_json = "1"
