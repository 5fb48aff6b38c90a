[package]
name = "postcode_ingest"
version = "0.1.0"
edition = "2021"
publish = false

[dependencies]
async-trait = "*"
clap = "*"
futures = "*"
osmpbf = "*"
sea-orm = { version = "*", features = ["sqlx-sqlite", "runtime-tokio-rustls", "macros"] }
sea-orm-migration = { version = "*", features = ["sqlx-sqlite", "runtime-tokio-rustls"] }
tokio = { version = "*", features = ["macros", "rt-multi-thread", "time"] }
