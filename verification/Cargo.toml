[package]
name = "tiny_os"
version = "0.1.0"
edition = "2021"
publish = false

[dependencies]
indexmap = "=2.14.2"
hashbrown = "=0.15.5"
thiserror = "=2.0.21"
conquer-once = "=0.4.0"
embedded-graphics = "=0.8.2"
x86_64 = { version = "=0.15.5", default-features = false, features = ["instructions"] }
nblf-queue = "*"
