[package]
name = "hyperdir"
version = "0.1.0"
edition = "2021"
publish = false

[dependencies]
aws-sdk-s3 = "=1.157.0"
base64 = "=0.22.1"
btree-ondisk = { version = "0.18.1", default-features = false, features = ["tokio-runtime", "arc", "value-check"] }
bytes = "=1.12.1"
crc64fast = "=1.1.0"
hyperfile = "0.5"
libc = "=0.2.191"
log = "=0.4.35"
tokio = { version = "1", features = ["sync", "time"] }
ulid = "=1.2.1"
uuid = { version = "=1.29.0", features = ["v4"] }
