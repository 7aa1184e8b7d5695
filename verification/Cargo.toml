[package]
name = "moz2d_blob"
version = "0.1.0"
edition = "2021"
publish = false

[dependencies]
webrender_api = "=0.57.2"
bincode = "=1.0.1"
app_units = "=0.7.8"
rayon = "=1.12.0"
foreign-types = "=0.3.2"
dwrote = "=0.4.2"
