[package]
name = "berlin_core"
version = "0.1.0"
edition = "2021"
publish = false

[dependencies]
deunicode = "1"
unicode-segmentation = "1"
strsim = "0.10"
fst = { version = "0.4", features = ["levenshtein"] }
petgraph = "0.6"
smallvec = "1"
serde = { version = "1", features = ["derive"] }
serde_json = "1"
csv = "1"
rayon = "1"
tracing = "0.1"
tracing-log = "0.1"
tracing-subscriber = "0.3"
axum = "0.4"
tokio = { version = "1", features = ["full"] }
tower-http = { version = "0.2", features = ["trace"] }
structopt = "0.3"
schemars = "0.8"
