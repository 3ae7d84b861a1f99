[package]
name = "binate"
version = "0.1.0"
edition = "2021"
publish = false

[dependencies]
object = "*"
gimli = "*"
iced-x86 = "*"
regex = "*"
memmap2 = "*"
rayon = "*"
serde = { version = "1", features = ["derive"] }
serde_json = "1"
clap = { version = "4", features = ["derive"] }
console = "*"
similar = "*"
tracing-subscriber = { version = "0.3", features = ["env-filter"] }
thiserror = "*"
