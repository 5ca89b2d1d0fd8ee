[package]
name = "riddle"
version = "0.1.0"
edition = "2021"
publish = false

[dependencies]
ab_glyph = "0.2"
minifb = { version = "0.28", default-features = false, features = ["x11"] }
png = "0.17"
serde_json = "1"
ureq = "2"
