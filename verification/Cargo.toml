[package]
name = "tls_terminator"
version = "0.1.0"
edition = "2021"
publish = false

[dependencies]
rama = { version = "=0.2.0", features = ["boring", "haproxy", "http-full", "tcp"] }
tokio = { version = "=1.54.1", features = ["full"] }
tracing = "=0.1.44"
tracing-subscriber = { version = "=0.3.23", features = ["env-filter", "fmt"] }

[dev-dependencies]
rama-haproxy = "=0.2.0"
