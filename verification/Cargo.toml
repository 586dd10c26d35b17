[package]
name = "wikilytics"
version = "0.1.0"
edition = "2021"
publish = false

[dependencies]
bzip2 = "0.4"
clap = { version = "4", features = ["cargo"] }
parse_wiki_text = "0.1"
quick-xml = "0.31"
serde = { version = "1", features = ["derive"] }
serde_json = "1"

[dev-dependencies]
itertools = "0.12"
