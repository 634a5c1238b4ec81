[package]
name = "dotnet_toolchain"
version = "0.2.0"
edition = "2021"
publish = false

[dependencies]
extism-pdk = "=1.4.1"
moon_common = "=2.0.8"
moon_config = "=2.1.0"
moon_pdk = "=2.0.4"
moon_pdk_api = "=2.0.4"
moon_target = "=3.0.1"
schematic = { version = "=0.19.7", features = ["config", "schema"] }
serde = { version = "=1.0.229", features = ["derive"] }
serde_json = "=1.0.154"
starbase_utils = { version = "=0.13.8", features = ["yaml"] }
system_env = "=0.10.0"
