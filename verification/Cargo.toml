[package]
name = "masking_room"
version = "0.1.0"
edition = "2021"
publish = false

[dependencies]
aes-gcm = "0.10"
axum = "0.7"
hex = "0.4"
hmac = "0.12"
rand = "0.8"
rand_core = { version = "0.6", features = ["getrandom"] }
regex = "1"
serde = { version = "1", features = ["derive"] }
serde_json = "1"
sha2 = "0.10"
tokio = { version = "1", features = ["macros", "net", "rt-multi-thread"] }
