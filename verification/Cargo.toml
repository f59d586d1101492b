[package]
name = "inmemorytable"
version = "0.1.0"
edition = "2021"
publish = false

[dependencies]
libc = "0.2"
nix = { version = "0.30", features = ["mman", "fs"] }
bincode = "1.3"
serde = { version = "1", features = ["derive"] }
thiserror = "2"
