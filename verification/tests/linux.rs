use moproxy::linux::systemd::{is_journal_stream, parse_dev_ino, watchdog_timeout};
use moproxy::linux::tcp::{needs_v6, original_dest, Lookup};
use moproxy::linux::tun::{device_name, TunError};
use moproxy::net::{Ipv4Addr, Ipv6Addr, SocketAddr, SocketAddrV4, SocketAddrV6};
use moproxy::time::Duration;

#[test]
fn the_watchdog_is_asked_for() {
    let timeout = watchdog_timeout(true, Some("42"), 42, Some("1500000"));
    assert_eq!(Some(Duration { secs: 1, nanos: 500_000_000 }), timeout);
    assert_eq!(None, watchdog_timeout(false, Some("42"), 42, Some("1500000")));
    assert_eq!(None, watchdog_timeout(true, Some("43"), 42, Some("1500000")));
    assert_eq!(None, watchdog_timeout(true, None, 42, Some("1500000")));
    assert_eq!(None, watchdog_timeout(true, Some("42"), 42, None));
    assert_eq!(None, watchdog_timeout(true, Some("42"), 42, Some("x")));
}

#[test]
fn the_journal_is_known_by_its_file() {
    assert_eq!(Some((8, 12345)), parse_dev_ino("8:12345"));
    assert_eq!(None, parse_dev_ino("8"));
    assert_eq!(None, parse_dev_ino("8:"));
    assert_eq!(None, parse_dev_ino("8:1:2"));
    assert!(is_journal_stream(Some("8:9"), Some((8, 9))));
    assert!(!is_journal_stream(Some("8:9"), Some((9, 8))));
    assert!(!is_journal_stream(None, Some((8, 9))));
    assert!(!is_journal_stream(Some("8:9"), None));
}

#[test]
fn ipv6_is_asked_about_last() {
    let four = SocketAddrV4 { ip: Ipv4Addr { bits: 1 }, port: 2 };
    let six = SocketAddrV6 { ip: Ipv6Addr { bits: 3 }, port: 4, flowinfo: 0, scope_id: 0 };
    assert!(!needs_v6(&Lookup::Found(four)));
    assert!(!needs_v6(&Lookup::Failed));
    assert!(needs_v6(&Lookup::NotFound));
    assert_eq!(
        Ok(Some(SocketAddr::V4(four))),
        original_dest(Lookup::Found(four), Lookup::Failed)
    );
    assert_eq!(
        Ok(Some(SocketAddr::V6(six))),
        original_dest(Lookup::NotFound, Lookup::Found(six))
    );
    assert_eq!(Ok(None), original_dest(Lookup::NotFound, Lookup::NotFound));
    assert_eq!(Err(()), original_dest(Lookup::Failed, Lookup::Found(six)));
    assert_eq!(Err(()), original_dest(Lookup::NotFound, Lookup::Failed));
}

#[test]
fn device_names_are_short() {
    let mut expected = b"tun0".to_vec();
    expected.extend([0; 12]);
    assert_eq!(expected, device_name("tun0").unwrap());
    assert_eq!(16, device_name("fifteen-letters").unwrap().len());
    let err = device_name("sixteen--letters").unwrap_err();
    assert_eq!("Invalid name (too long)", err.to_string());
    assert_eq!(
        "set_iff ioctl failed - EPERM",
        TunError::SetIFFIoctlFailed("EPERM".to_string()).to_string()
    );
    assert_eq!("The tunnel has been closed", TunError::Closed.to_string());
}
