[package]
name = "bmp"
version = "0.1.0"
edition = "2021"
publish = false

[dependencies]
anyhow = "1"
# indicatif needs the standard library part of console, which it does not ask for.
console = "0.16"
criterion = "=0.5.1"
indicatif = "=0.16.2"
rand = "=0.8.8"
rayon = "=1.12.0"
serde = { version = "1", features = ["derive"] }
structopt = "0.3"
