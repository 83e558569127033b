[package]
name = "mosalloc"
version = "0.1.0"
edition = "2021"
publish = false

[dependencies]
regex = "*"
libc = "*"
csv = "*"
serde = { version = "*", features = ["derive"] }
clap = { version = "*", features = ["derive"] }
ctor = "*"
redhook = "*"
nix = { version = "*", features = ["sched"] }
libseccomp = "*"
epoll = "*"
syscalls = "*"
