[package]
name = "admission_sim"
version = "0.1.0"
edition = "2021"
publish = false

[dependencies]
anyhow = "1"
chrono = "0.4"
clap = "2"
csv = "1"
once_cell = "1"
rand = "0.8"
rand_distr = "0.4"
rand_xoshiro = "0.6"
rayon = "1"
serde = { version = "1", features = ["derive"] }
serde_json = "1"
sprs = "0.11"
superslice = "1"
toml = "0.5"
