[package]
name = "rsort"
version = "0.1.0"
edition = "2021"
publish = false

[dependencies]
rand = "0.8"
rayon = "1"
plotlib = "0.5"
yew = { version = "0.21", features = ["csr"] }
