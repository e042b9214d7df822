[package]
name = "wallet_project_backend"
version = "0.1.0"
edition = "2021"
publish = false

[dependencies]
candid = "0.9"
ic-cdk = "0.10"
ic-cdk-macros = "0.7"
serde = "1"
