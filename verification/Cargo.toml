[package]
name = "hedgecut"
version = "0.1.0"
edition = "2021"
publish = false

[dependencies]
csv = "1"
hashbrown = "0.5"
rand = "0.6"
rayon = "1"
