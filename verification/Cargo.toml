[package]
name = "straycat"
version = "0.1.0"
edition = "2021"
publish = false

[dependencies]
anyhow = "=1.0.104"
bincode = "=1.3.3"
biquad = "=0.6.0"
clap = { version = "=4.6.7", features = ["derive"] }
hound = "=3.5.1"
rsworld = "=0.1.0"
rsworld-sys = "=0.1.0"
rubato = "=0.14.1"
serde = { version = "=1.0.229", features = ["derive"] }
symphonia = "=0.5.5"
