[package]
name = "rdr2_xbox_save_converter"
version = "0.1.0"
edition = "2021"
publish = false

[dependencies]
aes = "0.8"
sha2 = "0.10"
hex = "0.4"
zip = { version = "2", default-features = false, features = ["deflate"] }
serde = { version = "1", features = ["derive"] }
serde_json = "1"
toml = "0.8"
thiserror = "2"
directories = "6"
