[package]
name = "brightfield_render"
version = "0.1.0"
edition = "2021"
publish = false

[dependencies]
arrow = { version = "57", default-features = false }
kurbo = "*"
peniko = "*"
serde_json = "1"
skrifa = "*"
vello = { version = "0.7", default-features = false }
