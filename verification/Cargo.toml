[package]
name = "skyscreen"
version = "0.1.0"
edition = "2021"
publish = false

[dependencies]
rand = "=0.9.5"
tinybmp = "=0.6.0"
embedded-graphics = "=0.8.2"
embedded-graphics-simulator = "=0.7.0"
epd-waveshare = "=0.6.0"
rppal = { version = "=0.22.1", features = ["embedded-hal"] }
chrono = "=0.4.45"
config = "=0.15.27"
serde = { version = "=1.0.229", features = ["derive"] }
serde_derive = "=1.0.229"
u8g2-fonts = "=0.8.0"
embedded-text = "=0.7.3"
eg-seven-segment = "=0.2.0"
embedded-hal = "=1.0.0"
tracing = "=0.1.44"
dht-mmap-rust = "=0.1.0"
embedded-dht-rs = { version = "=0.5.0", features = ["dht22"] }
