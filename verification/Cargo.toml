[package]
name = "dis_bootloader"
version = "0.1.0"
edition = "2021"
publish = false

[dependencies]
arrayvec = { version = "=0.7.8", default-features = false }
cortex-m = "=0.7.10"
cortex-m-rt = "=0.7.7"
crc = "=3.4.0"
embassy-nrf = { version = "=0.11.0", features = ["nrf9160-s", "unstable-pac"] }
panic-persist = { version = "=0.3.0", features = ["custom-panic-handler"] }
