[package]
name = "walkdir"
version = "0.1.0"
edition = "2021"
publish = false

[dependencies]
libc = "0.2"
atty = "0.2"
bstr = { version = "0.1", default-features = false, features = ["std"] }
clap = { version = "2", default-features = false }
winapi = { version = "0.3", features = ["std", "errhandlingapi", "fileapi", "handleapi", "ioapiset", "minwinbase", "minwindef", "winbase", "winerror", "winioctl", "winnt"] }
