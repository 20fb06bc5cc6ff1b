[package]
name = "pharos"
version = "0.1.0"
edition = "2021"
publish = false

[dependencies]
anyhow = "1"
base64 = "=0.22.1"
chrono = { version = "=0.4.45", default-features = false, features = ["alloc", "std", "now"] }
dns-lookup = "2"
ed25519-dalek = "=2.2.0"
futures = "0.3"
ipnet = "=2.12.2"
ldap3 = { version = "=0.11.5", default-features = false, features = ["sync"] }
log = "0.4"
mdns-sd = { version = "=0.11.5", default-features = false, features = ["async"] }
rustls-native-certs = "0.8"
rustls-pki-types = { version = "1", features = ["std"] }
serde = { version = "1", features = ["derive"] }
serde_json = "1"
ssh-key = { version = "=0.6.7", default-features = false, features = ["alloc", "ed25519", "getrandom", "rand_core", "std"] }
thiserror = "1"
tokio = { version = "=1.54.1", features = ["net", "io-util", "rt-multi-thread", "macros", "sync", "time", "signal"] }
tokio-rustls = { version = "=0.26.6", default-features = false, features = ["ring", "tls12", "logging"] }
tracing = "0.1"
tracing-subscriber = { version = "0.3", default-features = false, features = ["env-filter", "fmt"] }
warp = { version = "=0.3.7", default-features = false }
webpki-roots = "0.26"
