[package]
name = "bfc"
version = "1.8.0"
edition = "2021"
publish = false

[dependencies]
ariadne = "=0.3.0"
clap = { version = "=4.6.7", features = ["cargo"] }
tempfile = "=3.27.0"
llvm-sys = { version = "=140.1.3", features = ["force-dynamic"] }
itertools = "=0.10.5"

[dev-dependencies]
quickcheck = "=0.9.2"
rand = "=0.7.3"
