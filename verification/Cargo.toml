[package]
name = "firmion"
version = "0.1.0"
edition = "2021"
publish = false

[dependencies]
object = "=0.40.0"
flexiglob = { version = "=0.1.0", features = ["fs"] }
