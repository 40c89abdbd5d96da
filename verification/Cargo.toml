[package]
name = "frostito"
version = "0.8.0"
edition = "2021"
publish = false

[dependencies]
curve25519-dalek = { version = "=4.1.3", features = ["rand_core", "zeroize"] }
decaf377 = "=0.10.1"
frost-core = { version = "=3.0.0", features = ["internals"] }
frost-ristretto255 = "=3.0.0"
frost-secp256k1 = "=3.0.0"
frost-secp256k1-tr = "=3.0.0"
hkdf = "=0.12.4"
k256 = "=0.13.4"
pasta_curves = "=0.5.2"
rand_core = { version = "=0.6.4", features = ["getrandom"] }
sha2 = "=0.10.9"
snow = "=0.9.6"
x25519-dalek = { version = "=2.0.1", features = ["static_secrets"] }
zeroize = "=1.9.1"

[dev-dependencies]
rand = "=0.8.8"
reddsa = { version = "=0.5.2", features = ["frost"] }
