[package]
name = "pusoy"
version = "0.1.0"
edition = "2021"
publish = false

[dependencies]
abc = "*"
num_cpus = "*"
ordered-float = "*"
rand = "*"
serde = { version = "*", features = ["derive"] }
