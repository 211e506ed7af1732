[package]
name = "rojo_sync"
version = "0.1.0"
edition = "2021"
publish = false

[dependencies]
anyhow = "*"
clap = { version = "*", features = ["derive"] }
fs-err = "*"
rbx_binary = "*"
rbx_dom_weak = "*"
rbx_xml = "*"
