[package]
name = "browsr"
version = "0.1.0"
edition = "2021"
publish = false

[dependencies]
clap = "=4.4.18"
crossterm = "=0.25.0"
ncbi = "=0.2.0-beta"
tui = "=0.19.0"
tui-input = "=0.6.1"
tui-tree-widget = "=0.11.0"
