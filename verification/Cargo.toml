[package]
name = "pastel"
version = "0.1.0"
edition = "2021"
publish = false

[dependencies]
image = { version = "0.25", default-features = false, features = ["png"] }
orbclient = "0.3"
orbimage = "0.1"
orbtk = "0.2"
rusttype = "0.8"
imageproc = { version = "0.25", default-features = false }
conv = "0.3"
