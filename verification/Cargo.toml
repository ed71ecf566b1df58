[package]
name = "seekx"
version = "0.1.0"
edition = "2021"
publish = false

[dependencies]
shlex = "1"
urlencoding = "2"
thiserror = "1"
walkdir = "2"
dirs = "5"
notify = "6"
webbrowser = "1"
which = "6"
gtk4 = "0.9"
