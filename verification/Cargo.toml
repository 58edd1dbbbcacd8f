[package]
name = "order_stat"
version = "0.1.0"
edition = "2021"
publish = false

[dependencies]
byteorder = "1"
libfuzzer-sys = "0.4"

[dev-dependencies]
quickcheck = { version = "0.4", default-features = false }
rand = "0.3"
