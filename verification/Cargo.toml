[package]
name = "git_backport"
version = "0.1.0"
edition = "2021"
publish = false

[dependencies]
git2 = { version = "*", default-features = false }
log = "*"
simple_logger = "*"
structopt = "*"
console = "*"

[dev-dependencies]
tempfile = "*"
