[package]
name = "datatype_codec"
version = "0.1.0"
edition = "2021"
publish = false

[dependencies]
byteorder = "1"
syn = { version = "2", features = ["full"] }
proc-macro2 = "1"
quote = "1"
