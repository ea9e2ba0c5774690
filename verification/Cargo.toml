[package]
name = "mfs"
version = "0.1.0"
edition = "2021"
publish = false

[dependencies]
aws-config = "*"
aws-sdk-s3 = "*"
fuser = "*"
libc = "*"
tokio = { version = "*", features = ["macros", "rt-multi-thread"] }
