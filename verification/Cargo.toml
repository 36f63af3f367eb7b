[package]
name = "csv_pg_schema"
version = "0.1.0"
edition = "2021"

[dependencies]
csv = "1"
tokio = { version = "1", features = ["macros", "rt-multi-thread"] }
tokio-postgres = "0.7"
