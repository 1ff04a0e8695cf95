[package]
name = "unit_graph"
version = "0.1.0"
edition = "2021"
publish = false

[dependencies]
cargo = "=0.92.0"
cargo-util = "=0.2.24"
cargo-credential-libsecret = "=0.5.2"
cargo-credential-macos-keychain = "=0.4.17"
cargo-credential-wincred = "=0.4.17"
kstring = "=2.0.2"
