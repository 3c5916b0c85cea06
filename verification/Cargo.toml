[package]
name = "crusty_os"
version = "0.1.0"
edition = "2021"
publish = false

[dependencies]
spin = "=0.9.9"
lazy_static = "=1.5.1"
x86_64 = { version = "=0.15.5", default-features = false, features = ["instructions"] }
pic8259 = { version = "=0.10.4", default-features = false, features = ["stable"] }
pc-keyboard = "=0.7.0"
uart_16550 = "0.6"
multiboot2 = "=0.28.0"
limine = "=0.6.3"
bootloader = { version = "=0.9.35", features = ["map_physical_memory"] }
mimalloc = { version = "=0.1.52", default-features = false }
tikv-jemalloc-ctl = { version = "=0.5.4", features = ["use_std"] }
