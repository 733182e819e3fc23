[package]
name = "serde_csv_core"
version = "0.3.2"
edition = "2021"
publish = false

[dependencies]
atoi = "2"
csv-core = "0.1"
defmt = "0.3"
heapless = "0.8"
itoa = "1"
lexical-parse-float = "0.8"
ryu = "1"
serde = "1"
