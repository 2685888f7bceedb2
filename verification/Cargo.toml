[package]
name = "javaminer"
version = "0.1.0"
edition = "2021"
publish = false

[dependencies]
classreader = "*"
docopt = "*"
flate2 = "*"
midi_file = "*"
multiarray = "*"
rusqlite = { version = "*", features = ["bundled"] }
serde = { version = "*", features = ["derive"] }
zip = "*"
