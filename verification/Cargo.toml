[package]
name = "eeprom"
version = "0.1.0"
edition = "2021"

[dependencies]
byteorder = { version = "1", default-features = false }
