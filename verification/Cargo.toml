[package]
name = "robosim"
version = "0.1.0"
edition = "2021"
publish = false

[dependencies]
image = { version = "=0.25.10", default-features = false, features = ["png"] }
flate2 = "=1.1.10"
tokio = { version = "=1.54.1", features = ["rt-multi-thread", "macros", "sync", "time", "net"] }
tokio-tungstenite = "=0.30.0"
futures-util = "=0.3.34"
log = "=0.4.35"
env_logger = "=0.11.11"
json = "=0.12.4"
nalgebra = "=0.35.0"
plotters = { version = "=0.3.7", default-features = false, features = ["bitmap_backend", "bitmap_gif", "line_series"] }
eframe = { version = "=0.37.0", default-features = false, features = ["default_fonts", "glow", "x11"] }
egui_plot = "=0.38.0"
egui_extras = { version = "=0.37.0", default-features = false }
ecolor = "=0.37.0"
vexide = "=0.8.0"
