[package]
name = "nimble"
version = "0.1.0"
edition = "2021"
publish = false

[dependencies]
flood-rs = "=0.0.10"
tick-id = "=0.0.9"
blob-stream = "=0.0.3"
discoid = "=0.0.4"
nimble-assent = "=0.0.16"
getrandom = "=0.4.3"
log = "=0.4.35"
anyhow = "*"
env_logger = "*"
easy-repl = "*"
