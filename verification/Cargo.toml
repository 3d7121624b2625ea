[package]
name = "diffutils"
version = "0.1.0"
edition = "2021"
publish = false

[dependencies]
diff = "0.1"
unicode-width = "0.2"
rand = "0.8"
itoa = "1"
regex = "1"
chrono = "0.4"
same-file = "1"
