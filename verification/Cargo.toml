[package]
name = "bizi"
version = "0.1.0"
edition = "2021"
publish = false

[dependencies]
anyhow = "=1.0.104"
async-trait = "=0.1.92"
axum = { version = "=0.7.9", features = ["ws"] }
chrono = "=0.4.45"
clap = { version = "=4.6.7", features = ["derive"] }
futures-util = "=0.3.34"
libc = "=0.2.191"
nanoid = "=0.4.0"
sea-orm = { version = "=1.1.20", default-features = false, features = ["macros", "sqlx-sqlite", "runtime-tokio-rustls"] }
sea-orm-migration = { version = "=1.1.20", default-features = false, features = ["sqlx-sqlite", "runtime-tokio-rustls"] }
serde = { version = "=1.0.229", features = ["derive"] }
serde_json = "=1.0.154"
thiserror = "=1.0.69"
tokio = { version = "=1.54.1", features = ["full"] }
utoipa = { version = "=5.5.0", features = ["axum_extras"] }
utoipa-swagger-ui = { version = "=8.1.0", features = ["axum", "vendored"] }
zip = { version = "=2.4.2", default-features = false }
