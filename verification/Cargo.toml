[package]
name = "moproxy"
version = "0.5.0"
edition = "2021"
publish = false

[dependencies]
anyhow = "1"
bytes = "1"
clap = { version = "4", features = ["derive", "env"] }
flexstr = "0.9"
futures-core = "0.3"
futures-util = "0.3"
httparse = "1"
hyper = { version = "0.14", features = ["server", "http1", "stream"] }
ip_network_table-deps-treebitmap = "0.5"
libc = "0.2"
nix = { version = "0.27", features = ["fs", "net", "socket"] }
number_prefix = "0.4"
once_cell = "1"
parking_lot = { version = "0.12", features = ["deadlock_detection"] }
pnet_packet = "0.33"
prettytable-rs = { version = "0.10", default-features = false }
rand = "0.8"
regex = "1"
rlua = "0.19"
rust-ini = "0.18"
sd-notify = "0.4"
serde = { version = "1", features = ["derive"] }
serde_json = "1"
serde_with = "2"
tokio = { version = "1", features = ["io-util", "macros", "net", "rt-multi-thread", "signal", "time"] }
tracing = "0.1"
tracing-journald = "0.3"
tracing-subscriber = "0.3"
zip = { version = "0.6", default-features = false, features = ["deflate"] }

[dev-dependencies]
nom = "7"
