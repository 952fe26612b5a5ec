[package]
name = "ionize"
version = "0.1.0"
edition = "2021"
publish = false

[dependencies]
clap = { version = "=4.6.7", features = ["derive"] }
serde = { version = "=1.0.229", features = ["derive"] }
serde_json = "=1.0.154"
thiserror = "=2.0.21"
hashbrown = "=0.17.1"
libm = "=0.2.16"
smallvec = "=1.16.4"
mimalloc = "=0.1.52"
harfrust = "=0.15.0"
skrifa = "=0.49.0"
base64 = "0.22"
