[package]
name = "radio"
version = "0.1.0"
edition = "2021"
publish = false

[dependencies]
bytes = "=1.12.1"
bitvec = "=1.1.1"
rayon = "=1.12.0"
flume = "=0.11.1"
num-complex = "=0.4.6"
rustfft = "=6.4.1"
rand = "=0.8.8"
rand_distr = "=0.4.3"
anyhow = "=1.0.104"
colored = "=2.2.0"
threadpool = "=1.8.1"
soapysdr = "=0.5.1"
plotters = { version = "=0.3.7", default-features = false, features = ["bitmap_backend", "bitmap_encoder", "line_series"] }
