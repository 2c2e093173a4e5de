[package]
name = "parquet_reader"
version = "0.1.0"
edition = "2021"
publish = false

[dependencies]
byteorder = "1"
snap = "*"
thrift = "*"
ordered-float = "*"
try_from = "*"
