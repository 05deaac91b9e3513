[package]
name = "script_entry_list"
version = "0.1.0"
edition = "2021"
publish = false

[dependencies]
pmd_sir0 = "*"
serde = { version = "*", features = ["derive"] }
