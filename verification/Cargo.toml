[package]
name = "docdelve"
version = "0.1.0"
edition = "2021"
publish = false

[dependencies]
zip = { version = "=8.6.0", default-features = false, features = ["deflate", "zstd"] }
diffy = "=0.5.2"
code-fuzzy-match = "=0.2.2"
btree-range-map = "=0.8.2"
uuid = { version = "=1.27.0", features = ["v4"] }
clap = { version = "=4.6.7", features = ["derive"] }
directories = "=6.0.0"
tar = "=0.4.46"
serde = { version = "*", features = ["derive"] }
serde_json = "=1.0.151"
