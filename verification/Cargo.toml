[package]
name = "bar"
version = "0.1.0"
edition = "2021"
publish = false

[dependencies]
aes = "=0.7.5"
bitstream-io = "=1.10.0"
byteorder = "=1.5.0"
chacha20poly1305 = "=0.9.1"
clap = "=2.34.0"
console = "0.16"
dialoguer = "=0.10.4"
flate2 = "=1.1.10"
indicatif = "=0.16.2"
rmpv = "=1.3.1"
rustyline = "=9.1.2"
shellwords = "=1.1.0"
sublime_fuzzy = "=0.7.0"
tempfile = "3"
thiserror = "1"
