[package]
name = "allocate_core"
version = "0.1.0"
edition = "2021"
publish = false

[dependencies]
block2 = "0.5"
ctrlc = "3"
libc = "0.2"
log = "0.4"
objc2 = "0.5"
objc2-app-kit = { version = "0.2", features = ["NSWorkspace", "NSRunningApplication", "libc"] }
objc2-foundation = { version = "0.2", features = ["NSString", "NSNotification"] }
signal-hook = "0.3"
