[package]
name = "file_tidy"
version = "0.1.0"
edition = "2021"
publish = false

[dependencies]
md-5 = "0.10"
sha1 = "0.10"
sha2 = "0.10"
sha3 = "0.10"
hex = "0.4"
walkdir = "2"
rayon = "1"
clap = { version = "4", features = ["derive"] }
log = "0.4"
log4rs = { version = "1", default-features = false, features = ["console_appender", "pattern_encoder"] }
