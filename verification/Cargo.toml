[package]
name = "hexrow"
version = "0.1.0"
edition = "2021"
publish = false

[dependencies]
colorz = { version = "=1.1.4", features = ["std"] }
error-iter = "=0.4.1"
onlyargs = "=0.2.0"
onlyargs_derive = "=0.2.0"
unicode-display-width = "=0.3.0"
unicode-segmentation = "=1.13.3"
