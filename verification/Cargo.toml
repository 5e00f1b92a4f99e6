[package]
name = "esprobe"
version = "0.1.0"
edition = "2021"
publish = false

[dependencies]
anyhow = "=1.0.104"
clap = { version = "=4.6.7", features = ["derive"] }
critical-section = "=1.2.0"
ctrlc = "=3.5.2"
embedded-svc = "=0.29.0"
esp-idf-svc = "=0.53.0"
gdbstub = "=0.7.10"
log = "=0.4.35"
probe-rs = "=0.32.0"
rpassword = "=7.5.4"
serialport = { version = "=4.10.1", default-features = false, features = ["usbportinfo-interface"] }
sha2 = "=0.10.9"
tracing = "=0.1.44"
tracing-subscriber = { version = "=0.3.23", features = ["env-filter"] }
