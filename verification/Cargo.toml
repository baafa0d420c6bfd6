[package]
name = "tailcall_template"
version = "0.1.0"
edition = "2021"
publish = false

[dependencies]
jaq-core = "2"
serde_json = { version = "1", features = ["preserve_order"] }
