//! Requirements on the proxy servers of a connection.

pub mod parser;
pub mod router;
pub mod table;
