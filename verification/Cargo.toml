[package]
name = "garfield"
version = "0.1.0"
edition = "2021"
publish = false

[dependencies]
rand = "=0.10.3"
chrono = "=0.4.45"
diesel = { version = "=2.3.13", features = ["postgres", "chrono"] }
