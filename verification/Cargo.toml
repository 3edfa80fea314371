[package]
name = "capnp_nonblock"
version = "0.1.0"
edition = "2021"
publish = false

[dependencies]
byteorder = "*"
capnp = "*"
nom = "*"

[dev-dependencies]
quickcheck = "*"
