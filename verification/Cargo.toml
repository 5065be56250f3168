[package]
name = "gateway_dot"
version = "0.1.0"
edition = "2021"
publish = false

[dependencies]
bytes = "=1.12.1"
fnv = "=1.0.7"
futures = "=0.3.34"
futures-timer = "=3.0.4"
hex = "=0.4.3"
ip_network = "=0.3.4"
libp2p = { version = "=0.39.1", default-features = false, features = ["identify", "kad", "mdns", "mplex", "noise", "ping", "tcp-tokio", "yamux"] }
parity-scale-codec = "=1.3.7"
prost = "=0.8.0"
smallvec = "=1.16.4"
sp-runtime = "=2.0.1"
tokio = { version = "=1.54.1", features = ["io-util", "macros", "net", "rt-multi-thread", "sync", "time"] }
url = "=2.2.2"
