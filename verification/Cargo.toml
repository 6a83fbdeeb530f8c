[package]
name = "bitors"
version = "3.1.0"
edition = "2021"
publish = false

[dependencies]
data-encoding = "=2.11.1"
memchr = "=2.8.3"
memmap2 = "=0.9.12"
percent-encoding = "=2.3.2"
rand = "=0.9.5"
sha1 = "=0.11.0"
sha2 = "=0.11.1"
thiserror = "=2.0.21"
url = "=2.5.8"
walkdir = "=2.5.0"
