[package]
name = "ghostbuster"
version = "0.1.0"
edition = "2021"
publish = false

[dependencies]
bgpsim = { version = "=0.18.5", features = ["export", "rand", "rand_queue", "topology_zoo"] }
clap = { version = "4", features = ["derive"] }
crossbeam = "*"
csv = "*"
flate2 = "*"
geoutils = "*"
indicatif = "*"
indicatif-log-bridge = "*"
ipnet = "*"
itertools = "0.10.5"
log = "*"
ordered-float = "3.9.2"
petgraph = "0.6.5"
pretty_env_logger = "*"
rand = "0.8"
rayon = "*"
serde = { version = "1", features = ["derive"] }
serde_json = "1"
thiserror = "*"
time = { version = "0.3", features = ["local-offset", "formatting", "macros"] }
tracing = "*"
tracing-appender = "*"
tracing-log = "*"
tracing-subscriber = { version = "*", features = ["env-filter"] }
typed-arena = "*"
bgpkit-broker = "*"
bgpkit-parser = "*"
