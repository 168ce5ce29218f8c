[package]
name = "plugin_js"
version = "0.1.0"
edition = "2021"
publish = false

[dependencies]
anyhow = "1"
base64 = "0.22"
flate2 = "1"
json-strip-comments = "*"
nodejs-built-in-modules = "*"
oxc_allocator = "=0.143.0"
oxc_ast = { version = "=0.143.0", features = ["serialize"] }
oxc_ast_visit = "=0.143.0"
oxc_parser = "=0.143.0"
oxc_span = "=0.143.0"
reqwest = { version = "0.12", default-features = false, features = ["blocking", "rustls-tls"] }
serde = { version = "1", features = ["derive"] }
serde_json = { version = "1", features = ["unbounded_depth"] }
serde_yaml = "0.9"
sha1 = "0.10"
sha2 = "0.10"
tar = "0.4"
tokio = { version = "1", features = ["rt-multi-thread", "macros", "time", "process", "io-util", "sync"] }
tracing = "0.1"
wax = "*"
xxhash-rust = { version = "0.8", features = ["xxh3"] }
