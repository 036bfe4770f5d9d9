[package]
name = "dbfs"
version = "0.1.0"
edition = "2021"
publish = false

[dependencies]
jammdb = "=0.11.0"
log = "0.4"

[dev-dependencies]
tempfile = "=3.27.0"
