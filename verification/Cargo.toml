[package]
name = "event_store"
version = "0.1.0"
edition = "2021"
publish = false

[dependencies]
ic-stable-structures = "*"
candid = "*"
ic-cdk = "*"
serde = "*"
