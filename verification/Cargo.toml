[package]
name = "ttyseq"
version = "0.1.0"
edition = "2021"
publish = false

[dependencies]
rtrb = "*"
embedded-graphics = "*"
cpal = "*"
hound = "*"
gpiod = "*"
spidev = "*"
rppal = "*"
ssd1322-zjy128x64 = "*"
