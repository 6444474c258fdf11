[package]
name = "pt_fuser"
version = "0.1.0"
edition = "2021"
publish = false

[dependencies]
bloomfilter = "*"
clap = { version = "*", features = ["derive"] }
ctrlc = "*"
eframe = { version = "*", default-features = false, features = ["glow", "default_fonts", "x11"] }
egui = { version = "*", default-features = false }
egui_plot = "*"
flate2 = "*"
flexbuffers = "*"
indexmap = { version = "*", features = ["serde"] }
indicatif = "*"
prost = "*"
rayon = "*"
regex = "*"
serde = { version = "*", features = ["derive", "rc"] }
thin-vec = { version = "*", features = ["serde"] }
threadpool = "*"
tracing = "*"
tracing-subscriber = "*"
