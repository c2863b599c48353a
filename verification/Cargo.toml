[package]
name = "tantivy_viewer"
version = "0.1.0"
edition = "2021"
publish = false

[dependencies]
tantivy = "0.22"
fst = "=0.3.5"
byteorder = "=1.5.0"
actix-web = { version = "=0.7.19", default-features = false }
cookie = "=0.11.5"
env_logger = "=0.5.13"
failure = "=0.1.8"
failure_derive = "=0.1.8"
handlebars = "=0.32.4"
itertools = "=0.7.11"
log = "=0.4.34"
pretty-bytes = "=0.2.2"
serde = "=1.0.229"
serde_derive = "=1.0.229"
serde_json = "=1.0.154"
url = "=1.7.2"
