[package]
name = "po_library"
version = "0.1.0"
edition = "2021"
publish = false

[dependencies]
clap = { version = "=4.6.7", features = ["derive", "env"] }
color-eyre = "=0.6.5"
confique = { version = "=0.4.0", features = ["toml"] }
fast-glob = "=1.1.2"
hex = "=0.4.3"
sha2 = "=0.10.9"
time = { version = "=0.3.55", features = ["macros", "local-offset", "formatting"] }
tracing = "=0.1.44"
tracing-error = "=0.2.1"
tracing-subscriber = { version = "=0.3.23", features = ["env-filter", "time", "local-time"] }
