[package]
name = "rbxlx_to_rojo"
version = "0.1.0"
edition = "2021"
publish = false

[dependencies]
quick-xml = "=0.31.0"
xmltree = { version = "=0.12.0", features = ["attribute-order"] }
indexmap = "=2.14.2"
rbx_xml = "=0.12.4"
rbx_binary = "0.6"
rbx_dom_weak = "=2.9.0"
rbx_reflection = "=4.2.0"
rbx_reflection_database = ">=0.2.2, <0.2.7"
rmp = "=0.8.9"
serde = { version = "1", features = ["derive"] }
serde_json = { version = "1", features = ["preserve_order"] }
log = "0.4"
env_logger = "*"
nfd = "*"
