[package]
name = "pdfwm"
version = "0.1.0"
edition = "2021"
publish = false

[dependencies]
num-bigint = "0.4"
num-traits = "0.2"
thiserror = "*"
chrono = "*"
ext-php-rs = "*"
image = "*"
lopdf = "*"
pdfium-render = "*"
printpdf = "*"
rayon = "*"
trustmark = "*"
