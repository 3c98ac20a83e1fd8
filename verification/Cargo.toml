[package]
name = "zcash_vote"
version = "0.1.0"
edition = "2021"
publish = false

[dependencies]
anyhow = "=1.0.104"
bip0039 = "=0.14.2"
blake2b_simd = "=1.0.5"
ff = "=0.14.0"
hex = { version = "=0.4.3", features = ["serde"] }
incrementalmerkletree = "=0.9.0"
orchard = "=0.16.0"
pasta_curves = "=0.6.1"
rand = "=0.10.3"
serde = { version = "=1.0.229", features = ["derive"] }
serde_json = "=1.0.154"
sqlx = { version = "=0.9.0", default-features = false, features = ["sqlite", "runtime-tokio"] }
thiserror = "=1.0.69"
tokio = { version = "=1.54.1", features = ["rt"] }
zcash_address = "=0.14.0"
zcash_note_encryption = "=0.5.1"
zip32 = "=0.3.0"
