[package]
name = "rpm_resolve"
version = "0.1.0"
edition = "2021"
publish = false

[dependencies]
version-compare = "=0.1.1"
resolvo = "=0.2.0"
rpmrepo_metadata = "0.2"
reqwest = { version = "=0.11.27", features = ["blocking"] }
url = "=2.5.8"
tracing-subscriber = "=0.3.23"
