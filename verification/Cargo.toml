[package]
name = "engramdb"
version = "0.1.0"
edition = "2021"
publish = false

[dependencies]
arrow = { version = "53", default-features = false }
arrow-array = "53"
bincode = "1.3"
bumpalo = "3"
datafusion = { version = "43", default-features = false }
datafusion-common = { version = "43", default-features = false }
datafusion-expr = { version = "43", default-features = false }
datafusion-physical-plan = { version = "43", default-features = false }
fxhash = "0.2"
log = "0.4"
rand = "0.8"
serde = { version = "1", features = ["derive"] }
serde_json = "1"
thiserror = "1"
