[package]
name = "jsonlike"
version = "0.1.0"
edition = "2021"
publish = false

[dependencies]
serde_json = "*"
jaq-core = "*"
jaq-json = "*"
async-graphql-value = "*"
indexmap = "*"
