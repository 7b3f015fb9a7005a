//! What is special to Linux.

pub mod systemd;
pub mod tcp;
pub mod tun;
