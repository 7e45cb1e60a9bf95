[package]
name = "sockets"
version = "0.1.0"
edition = "2021"
publish = false

[dependencies]
heapless = "0.7"
fugit = "0.3"
no-std-net = "0.5"
embedded-nal = "0.6"
hash32 = "0.2"
hash32-derive = "0.1"
serde = { version = "1", default-features = false, features = ["derive"] }
defmt = "0.3"
atat = { version = "0.18", features = ["derive"] }
embedded-time = "0.12"
embassy-time = "0.1"
