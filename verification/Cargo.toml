[package]
name = "ic_dbms"
version = "0.1.0"
edition = "2021"
publish = false

[dependencies]
candid = "=0.10.39"
serde = { version = "=1.0.229", features = ["derive"] }
thiserror = "=2.0.21"
ic-cdk = "=0.20.3"
syn = { version = "=2.0.119", features = ["full"] }
quote = "=1.0.47"
proc-macro2 = "=1.0.107"
