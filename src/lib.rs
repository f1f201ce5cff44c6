//! Identifies USB serial devices by their hardware identity and resolves
//! user-chosen aliases to the device nodes they currently occupy.

pub mod decode;
pub mod store;
pub mod tty;
pub mod udev;
