[package]
name = "lol_html"
version = "0.1.0"
edition = "2021"
publish = false

[dependencies]
selectors = "0.22"
cssparser = "0.27"
encoding_rs = "0.8"
mime = "0.3"
thiserror = "1"
hashbrown = "0.14"
bitflags = "1"
