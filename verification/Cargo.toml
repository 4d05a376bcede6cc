[package]
name = "storescp"
version = "0.1.0"
edition = "2021"
publish = false

[dependencies]
dicom-core = "*"
dicom-encoding = "*"
dicom-object = "*"
dicom-dictionary-std = "*"
dicom-transfer-syntax-registry = "*"
dicom-ul = "*"
clap = { version = "*", features = ["derive"] }
snafu = "*"
tracing = "*"
tracing-subscriber = "*"
