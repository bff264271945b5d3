[package]
name = "cot_site"
version = "0.1.0"
edition = "2021"
publish = false

[dependencies]
askama = "*"
chrono = "0.4"
comrak = { version = "*", default-features = false, features = ["syntect"] }
cot = { version = "*", default-features = false }
proc-macro2 = "1"
quote = "1"
semver = "1"
serde = { version = "1", features = ["derive"] }
serde_yml = "*"
syn = "2"
syntect = "5"
thiserror = "*"

[dev-dependencies]
regex = "1"
