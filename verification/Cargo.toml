[package]
name = "golang_profiling"
version = "0.1.0"
edition = "2021"
publish = false

[dependencies]
anyhow = "*"
aya = "*"
aya-log = "*"
clap = { version = "*", features = ["derive"] }
env_logger = "*"
gimli = "*"
libc = "*"
log = "*"
memmap2 = "*"
object = { version = "*", features = ["write"] }
procfs = "*"
tokio = { version = "*", features = ["macros", "rt-multi-thread", "signal", "time"] }
