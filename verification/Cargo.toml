[package]
name = "fatxlib"
version = "0.1.0"
edition = "2021"
publish = false

[dependencies]
async-trait = "0.1"
chrono = "0.4"
clap = { version = "4", features = ["derive"] }
crossterm = "*"
env_logger = "*"
libc = "0.2"
log = "0.4"
nfsserve = "*"
rand = "0.8"
ratatui = "*"
sha1 = "0.10"
thiserror = "1"
tokio = { version = "1", features = ["full"] }
xdvdfs = { version = "*", default-features = false, features = ["std", "read"] }
