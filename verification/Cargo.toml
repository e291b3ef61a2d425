[package]
name = "rsa_limbs"
version = "0.1.0"
edition = "2021"
publish = false

[dependencies]
halo2-base = "=0.5.5"
halo2curves = "=0.10.0"
num-bigint = "=0.4.8"
num-traits = "=0.2.19"
rsa = { version = "=0.9.10", features = ["sha2"] }

[dev-dependencies]
rand = "=0.8.8"
sha2 = "=0.10.9"
