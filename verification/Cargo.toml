[package]
name = "routing"
version = "0.1.0"
edition = "2021"
publish = false

[dependencies]
cbor = "=0.4.1"
itertools = "=0.6.5"
log = "=0.4.35"
maidsafe_utilities = "=0.19.0"
rustc-serialize = "=0.3.25"
serde = { version = "=1.0.229", features = ["derive"] }
sodiumoxide = "=0.2.7"
tiny-keccak = "=1.5.0"

[dev-dependencies]
rand = "=0.4.6"
