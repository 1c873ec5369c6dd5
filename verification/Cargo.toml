[package]
name = "ff_solver_lib"
version = "0.1.0"
edition = "2021"
publish = false

[dependencies]
itertools = "0.12"
rand_xoshiro = "0.6"
clap = { version = "4", features = ["derive"] }

[dev-dependencies]
rand = "0.8"
