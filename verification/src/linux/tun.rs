//! Virtual network devices.

use crate::text::push_bytes;
use vstd::prelude::*;

verus! {

/// How many bytes the name of a device has, with a zero at its end.
pub const IFNAMSIZ: usize = 16;

/// Why a device cannot be used. Where the system says why, its words are kept.
#[derive(Debug)]
pub enum TunError {
    InvalidTunDeviceName,
    FailedToOpenCloneDevice,
    SetIFFIoctlFailed(String),
    SetFlagsFcntlFailed(String),
    SetTunIfUpFailed,
    Closed,
    FailedToRegisterFd(String),
}

/// An error in words.
pub open spec fn error_text(e: TunError) -> Seq<char> {
    match e {
        TunError::InvalidTunDeviceName => "Invalid name (too long)"@,
        TunError::FailedToOpenCloneDevice => "Failed to obtain fd for clone device"@,
        TunError::SetIFFIoctlFailed(err) => "set_iff ioctl failed - "@ + err@,
        TunError::SetFlagsFcntlFailed(err) => "f_setfl fcntl failed - "@ + err@,
        TunError::Closed => "The tunnel has been closed"@,
        TunError::SetTunIfUpFailed => "Failed to set tun interface up"@,
        TunError::FailedToRegisterFd(err) => "Failed to register fd to loop - "@ + err@,
    }
}

impl TunError {
    /// The error in words.
    pub fn to_string(&self) -> (s: String)
        ensures
            s@ == error_text(*self),
    {
        match self {
            TunError::InvalidTunDeviceName => "Invalid name (too long)".to_owned(),
            TunError::FailedToOpenCloneDevice => "Failed to obtain fd for clone device".to_owned(),
            TunError::SetIFFIoctlFailed(err) => {
                let mut s = "set_iff ioctl failed - ".to_owned();
                s.append(err.as_str());
                s
            },
            TunError::SetFlagsFcntlFailed(err) => {
                let mut s = "f_setfl fcntl failed - ".to_owned();
                s.append(err.as_str());
                s
            },
            TunError::Closed => "The tunnel has been closed".to_owned(),
            TunError::SetTunIfUpFailed => "Failed to set tun interface up".to_owned(),
            TunError::FailedToRegisterFd(err) => {
                let mut s = "Failed to register fd to loop - ".to_owned();
                s.append(err.as_str());
                s
            },
        }
    }
}

/// The name of a device as the system takes it: its bytes, and zeros behind them.
pub open spec fn padded(name: Seq<u8>) -> Seq<u8> {
    name + Seq::new((IFNAMSIZ - name.len()) as nat, |i: int| 0u8)
}

/// The name of a device as the system takes it.
pub fn device_name(name: &str) -> (r: Result<Vec<u8>, TunError>)
    ensures
        ({
            let bytes = vstd::utf8::encode_utf8(name@);
            match r {
                Ok(b) => bytes.len() <= IFNAMSIZ - 1 && b@ == padded(bytes),
                Err(e) => bytes.len() > IFNAMSIZ - 1 && e == TunError::InvalidTunDeviceName,
            }
        }),
{
    let bytes = name.as_bytes();
    if bytes.len() > IFNAMSIZ - 1 {
        return Err(TunError::InvalidTunDeviceName);
    }
    let mut r: Vec<u8> = Vec::new();
    push_bytes(&mut r, bytes);
    while r.len() < IFNAMSIZ
        invariant
            bytes@.len() <= r@.len() <= IFNAMSIZ,
            r@.take(bytes@.len() as int) == bytes@,
            forall|i: int| bytes@.len() <= i < r@.len() ==> r@[i] == 0,
        decreases IFNAMSIZ - r@.len(),
    {
        r.push(0);
        assert(r@.take(bytes@.len() as int) =~= bytes@);
    }
    assert(r@ =~= padded(bytes@)) by {
        assert forall|i: int| 0 <= i < bytes@.len() implies r@[i] == bytes@[i] by {
            assert(r@.take(bytes@.len() as int)[i] == r@[i]);
        }
    }
    Ok(r)
}

} // verus!
