[package]
name = "commenter"
version = "0.1.0"
edition = "2021"
publish = false

[dependencies]
uuid = { version = "=1.27.0", features = ["v4"] }
anyhow = "=1.0.104"
tokio = { version = "=1.53.2", features = ["full"] }
tokio-stream = "=0.1.19"
futures-util = "=0.3.34"
warp = { version = "=0.4.3", features = ["server", "websocket"] }
reqwest = { version = "=0.13.5", default-features = false, features = ["json"] }
serde = { version = "=1.0.229", features = ["derive"] }
serde_json = "=1.0.151"
dotenv = "=0.15.0"
rdkafka = "=0.39.0"
diesel = { version = "=2.3.13", default-features = false, features = ["postgres"] }
