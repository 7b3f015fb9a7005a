//! Where a redirected connection wanted to go.

use crate::net::{SocketAddr, SocketAddrV4, SocketAddrV6};
use vstd::prelude::*;

verus! {

/// What the system says about one family of addresses.
#[derive(Debug)]
pub enum Lookup<A> {
    /// The connection was redirected.
    Found(A),
    /// It was not.
    NotFound,
    /// The system cannot say.
    Failed,
}

/// Whether the second family is asked about.
pub open spec fn asks_v6(v4: Lookup<SocketAddrV4>) -> bool {
    v4 is NotFound
}

/// Whether to ask about the second family.
pub fn needs_v6(v4: &Lookup<SocketAddrV4>) -> (r: bool)
    ensures
        r == asks_v6(*v4),
{
    match v4 {
        Lookup::NotFound => true,
        _ => false,
    }
}

/// Where a connection wanted to go. IPv6 is asked about only where the
/// connection was not redirected in IPv4.
pub fn original_dest(
    v4: Lookup<SocketAddrV4>,
    v6: Lookup<SocketAddrV6>,
) -> (r: Result<Option<SocketAddr>, ()>)
    ensures
        match v4 {
            Lookup::Found(addr) => r == Ok::<Option<SocketAddr>, ()>(Some(SocketAddr::V4(addr))),
            Lookup::Failed => r is Err,
            Lookup::NotFound => match v6 {
                Lookup::Found(addr) => r == Ok::<Option<SocketAddr>, ()>(
                    Some(SocketAddr::V6(addr)),
                ),
                Lookup::NotFound => r == Ok::<Option<SocketAddr>, ()>(None),
                Lookup::Failed => r is Err,
            },
        },
{
    match v4 {
        Lookup::Found(addr) => Ok(Some(SocketAddr::V4(addr))),
        Lookup::Failed => Err(()),
        Lookup::NotFound => match v6 {
            Lookup::Found(addr) => Ok(Some(SocketAddr::V6(addr))),
            Lookup::NotFound => Ok(None),
            Lookup::Failed => Err(()),
        },
    }
}

} // verus!
