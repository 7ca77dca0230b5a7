[package]
name = "tabular"
version = "0.1.0"
edition = "2021"
publish = false

[dependencies]
chrono = { version = "0.4", default-features = false, features = ["std"] }
dotenvy = "0.15"
polars = { version = "0.46", default-features = false, features = ["fmt", "dtype-date", "dtype-datetime"] }
sea-orm = { version = "1.1", default-features = false, features = ["sqlx-postgres", "runtime-tokio", "with-chrono"] }
sqlx = { version = "0.8", default-features = false, features = ["postgres", "runtime-tokio", "chrono"] }
thiserror = "2"
tokio = { version = "1", default-features = false, features = ["macros", "rt-multi-thread"] }
