[package]
name = "linear_state"
version = "0.1.0"
edition = "2021"
publish = false

[dependencies]
fxhash = "0.2"
rand = "0.8"
smallvec = "1"
type-map = "0.5"
