[package]
name = "ish"
version = "0.1.0"
edition = "2021"
publish = false

[dependencies]
epsh = "=0.0.9"
fxhash = "=0.2.1"
ignore = "=0.4.34"
libc = "=0.2.184"
rustix = { version = "=1.1.4", features = ["event", "fs", "pipe", "process", "runtime", "stdio", "system", "termios", "time"] }
