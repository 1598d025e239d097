[package]
name = "portfolio_solver"
version = "0.1.0"
edition = "2021"
publish = false

[dependencies]
anyhow = "1"
clap = { version = "4", features = ["derive"] }
clap-verbosity-flag = "2"
env_logger = "0.10"
exitcode = "1.1"
grb = "1.3"
itertools = "0.10"
log = "0.4"
ndarray = "0.15"
polars = { version = "0.26", features = ["lazy", "csv-file", "random", "cross_join", "concat_str", "ndarray"] }
rand = "0.8"
rand_chacha = "0.3"
rand_distr = "0.4"
serde = { version = "1", features = ["derive"] }
serde_json = "1"
