[package]
name = "asn1_aper"
version = "0.1.0"
edition = "2021"
publish = false

[dependencies]
bitvec = "1"
quote = "1"
syn = "2"
proc-macro2 = "1"
