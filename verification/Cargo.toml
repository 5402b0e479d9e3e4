[package]
name = "heater"
version = "0.2.3"
edition = "2021"
publish = false

[dependencies]
anyhow = "1"
async-recursion = "1"
clap = { version = "4", features = ["cargo"] }
console = "*"
counter = "*"
futures = "0.3"
histogram = "*"
indicatif = "*"
itertools = "*"
log = "0.4"
num_cpus = "1"
once_cell = "1"
pretty_env_logger = "*"
reqwest = { version = "*", features = ["gzip"] }
sitemap = "*"
thiserror = "*"
tokio = { version = "1", features = ["full"] }
url = "2"
xml-rs = "0.8"
