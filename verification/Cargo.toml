[package]
name = "fntldr"
version = "0.1.0"
edition = "2021"
publish = false

[dependencies]
anyhow = "=1.0.104"
ass-core = "=0.1.2"
bincode = "=2.0.1"
clap = { version = "=4.6.7", features = ["derive"] }
ctrlc = "=3.5.2"
dirs = "=7.0.0"
memmap2 = "=0.9.11"
tempfile = "=3.27.0"
ttf-parser = "=0.25.1"
yeslogic-fontconfig-sys = "=6.0.1"
