[package]
name = "joos_fire"
version = "0.1.0"
edition = "2021"
publish = false

[dependencies]
displaydoc = "0.2"
libc = "0.2"
lz4 = "1"
object = { version = "0.36", default-features = false, features = ["read", "std"] }
thiserror = "2"
vm-memory = { version = "0.16", features = ["backend-mmap", "backend-bitmap"] }
vmm-sys-util = "0.14"
