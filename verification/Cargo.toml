[package]
name = "slatedb_mget"
version = "0.1.0"
edition = "2021"
publish = false

[dependencies]
async-trait = "0.1"
bytes = "1"
clap = { version = "4", features = ["derive"] }
futures = "0.3"
object_store = { version = "0.13", default-features = false }
parking_lot = "0.12"
rand = "0.9"
rand_xorshift = "0.4"
tokio = { version = "1", features = ["macros", "rt", "rt-multi-thread", "sync", "time"] }
tracing = "0.1"
