//! The decisions of a transparent TCP proxy, verified.
//!
//! Everything that a proxy daemon decides or computes is here: the selection
//! policy and its rule language, the upstream handshakes, the scoring of
//! upstream servers, the server list, the status pages. Sockets, timers and
//! files belong to the program around this library.

pub mod client;
pub mod http;
pub mod lines;
pub mod linux;
pub mod monitor;
pub mod net;
pub mod number;
pub mod order;
pub mod policy;
pub mod proxy;
pub mod route;
pub mod server;
pub mod socks5;
pub mod text;
pub mod time;
pub mod tls;
pub mod udp;
pub mod web;
