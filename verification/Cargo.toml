[package]
name = "mcp"
version = "0.1.0"
edition = "2021"
publish = false

[dependencies]
byteorder = "1"
docopt = "1"

[dev-dependencies]
quickcheck = { version = "1", default-features = false }
