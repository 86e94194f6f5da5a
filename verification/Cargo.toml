[package]
name = "easyenv"
version = "0.1.0"
edition = "2021"
publish = false

[dependencies]
aes-gcm = "=0.10.3"
getrandom = "=0.3.4"
sha2 = "=0.10.9"
hex = "=0.4.3"
age = { version = "=0.11.5", features = ["armor"] }
bech32 = "=0.9.1"
x25519-dalek = "=2.0.1"
shell-escape = "=0.1.5"
anyhow = "=1.0.104"
serde = { version = "=1.0.229", features = ["derive"] }
serde_json = "=1.0.154"
clap = { version = "=4.6.7", features = ["derive"] }
clap_complete = "=4.6.11"
rusqlite = { version = "=0.32.1", features = ["bundled"] }
directories = "=5.0.1"
dirs = "=5.0.1"
keyring = "=3.6.3"
time = { version = "=0.3.55", features = ["formatting", "parsing", "serde"] }
toml = "=0.8.23"
rand = "=0.8.8"
arboard = { version = "=3.7.0", default-features = false }
