[package]
name = "compat_checker"
version = "0.1.0"
edition = "2021"
publish = false

[dependencies]
elf = "0.7"
clap = { version = "4", features = ["derive"] }
serde = { version = "1", features = ["derive"] }
serde_json = "1"
semver = "1"
debpkg = "0.6"
tempfile = "3"
path-slash = "0.2"
prettytable-rs = "0.10"
term = "0.7"
is-terminal = "0.4"
regex = "1"
debian-control = "*"
debversion = "*"
sha256 = { version = "1", default-features = false }
