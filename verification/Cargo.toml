[package]
name = "codimate"
version = "0.1.0"
edition = "2021"
publish = false

[dependencies]
png = "0.18"
jpeg-decoder = "0.3"
mitex = "*"
roxmltree = "0.20"
usvg = "0.45"
tiny-skia = "0.11"
ab_glyph = "0.2"
ttf-parser = "0.25"
harfbuzz_rs = "2"
minifb = "0.28"
pyo3 = "0.23"
