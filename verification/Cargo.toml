[package]
name = "encrypted_notes_backend"
version = "0.1.0"
edition = "2021"
publish = false

[dependencies]
candid = "=0.8.4"
ic-cdk = "=0.6.10"
ic-cdk-macros = "=0.6.10"
