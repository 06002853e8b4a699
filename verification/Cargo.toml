[package]
name = "exotherm"
version = "0.1.0"
edition = "2021"
publish = false

[dependencies]
foundationdb = { version = "*", features = ["embedded-fdb-include", "fdb-7_1"] }
uuid = { version = "*", features = ["v4"] }
serde = { version = "*", features = ["derive"] }
serde_json = "*"
thiserror = "*"
