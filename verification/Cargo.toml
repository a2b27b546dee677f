[package]
name = "dpdk_utest"
version = "0.1.0"
edition = "2021"
publish = false

[dependencies]
regex = "1"
serde_yaml = "0.9"
clap = "4"
ssh2 = "0.9"
log = "0.4"
