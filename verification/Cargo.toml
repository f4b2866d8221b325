[package]
name = "dafydd"
version = "0.1.0"
edition = "2021"
publish = false

[dependencies]
pyo3 = "*"
pyo3-async-runtimes = { version = "*", features = ["tokio-runtime"] }
tokio = { version = "1", features = ["full"] }
socket2 = { version = "*", features = ["all"] }
serialport = { version = "*", default-features = false }
tokio-serial = { version = "*", default-features = false }
nusb = "*"
if-addrs = "*"
ipnet = "*"
futures-util = "*"
libc = "*"
smallvec = "*"
thiserror = "*"
tracing = "*"
windows-sys = { version = "*", features = ["Win32_Foundation", "Win32_NetworkManagement_IpHelper", "Win32_NetworkManagement_Ndis", "Win32_Networking_WinSock"] }
