[package]
name = "shairplay"
version = "0.1.0"
edition = "2021"
publish = false

[dependencies]
aes = "*"
bytes = "1"
chacha20poly1305 = "*"
ctr = "*"
hkdf = "*"
mdns-sd = "*"
plist = "1"
sha2 = "*"
tokio = { version = "1", features = ["io-util", "macros", "net", "rt", "rt-multi-thread", "sync", "time"] }
tracing = "0.1"

[dev-dependencies]
rand = "0.8"
