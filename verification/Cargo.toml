[package]
name = "weight_chart"
version = "0.1.0"
edition = "2021"
publish = false

[dependencies]
plotters = { version = "0.3", default-features = false, features = ["bitmap_backend", "bitmap_encoder", "line_series", "ab_glyph"] }
