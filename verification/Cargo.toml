[package]
name = "rofis"
version = "0.1.0"
edition = "2021"
publish = false

[dependencies]
bytecodec = "=0.4.15"
daemonize = "=0.5.0"
env_logger = "=0.11.11"
fibers_http_server = "=0.3.0"
futures = "=0.1.31"
httpcodec = "=0.2.3"
log = "=0.4.34"
mime_guess = "=2.0.5"
noargs = "=0.4.3"
orfail = "=2.0.0"
patricia_tree = "=0.10.2"
slog = "=2.8.2"
trackable = "=1.3.0"
url = "=2.5.8"
