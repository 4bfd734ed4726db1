[package]
name = "relaystar"
version = "0.1.0"
edition = "2021"
publish = false

[dependencies]
heapless = "0.8"
postcard = { version = "1", default-features = false }
serde = { version = "1", default-features = false, features = ["derive"] }
embedded-io-async = "0.6"
embedded-hal = "1"
embedded-hal-async = "1"
embedded-graphics = "0.8"
lora-phy = "3"
embassy-sync = "0.6"
embassy-futures = "0.1"
embassy-time = { version = "0.4", features = ["std", "generic-queue-64"] }
critical-section = { version = "1", features = ["std"] }
anyhow = "1"
config = { version = "0.15", default-features = false, features = ["toml"] }
rumqttd = "0.19"
tracing = "0.1"
tracing-subscriber = { version = "0.3", features = ["env-filter"] }
ssd1306 = "0.9"
