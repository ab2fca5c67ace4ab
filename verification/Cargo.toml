[package]
name = "treehouse"
version = "0.1.0"
edition = "2021"
publish = false

[dependencies]
rand = "=0.8.8"
wyrand = { version = "=0.1.6", features = ["rand_core"] }
regex = "=1.13.1"
toml_edit = { version = "=0.19.15", features = ["serde"] }
ulid = "=1.2.1"
chrono = "=0.4.45"
serde = { version = "=1.0.229", features = ["derive"] }
serde_json = "=1.0.154"
pulldown-cmark = { version = "=0.9.6", default-features = false }
jotdown = "=0.4.1"
blake3 = "=1.8.7"
walkdir = "=2.5.0"
anyhow = "=1.0.104"
codespan-reporting = "=0.11.1"
handlebars = "=4.5.0"
axum = { version = "=0.7.9", features = ["ws"] }
tokio = { version = "=1.54.1", features = ["full"] }
tokio-stream = "=0.1.19"
tower-http = { version = "=0.5.2", features = ["fs"] }
tower-livereload = "=0.9.6"
dashmap = "=5.5.3"
image = { version = "=0.24.9", default-features = false, features = ["png", "jpeg"] }
indexmap = { version = "=2.14.2", features = ["serde"] }
log = "=0.4.35"
clap = { version = "=4.6.7", features = ["derive"] }
copy_dir = "=0.1.3"
thiserror = "=1.0.69"
tracing = "=0.1.44"
tracing-subscriber = "=0.3.23"
owo-colors = "=3.5.0"
