[package]
name = "yaskkserv2"
version = "0.1.0"
edition = "2021"
publish = false

[dependencies]
twoway = "0.2"
sha1 = "0.10"
rustc-hash = "1.1"
bincode = "1.3"
serde = { version = "1", features = ["derive"] }
json = "0.12"
url = "2"
regex = "1"
once_cell = "1"
thiserror = "1"
log = "0.4"
clap = "2"
mio = { version = "0.8", features = ["os-poll", "net"] }
daemonize = "0.5"
syslog = "6"
reqwest = { version = "0.11", default-features = false, features = ["blocking", "rustls-tls"] }
