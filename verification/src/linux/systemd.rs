//! Talking to the service manager.

use crate::number::parse_unsigned;
use crate::text::{front, rest};
use crate::time::Duration;
use vstd::prelude::*;

verus! {

/// The span of time with so many microseconds.
pub open spec fn from_micros(micros: u64) -> Duration {
    Duration { secs: micros / 1_000_000, nanos: ((micros % 1_000_000) * 1000) as u32 }
}

/// How often the service manager wants to hear from the process with the number
/// `own_pid`: where it can be notified at all, the watchdog is meant for this
/// process and the span is a number.
pub open spec fn watchdog(
    notify_enabled: bool,
    pid: Option<Seq<char>>,
    own_pid: u32,
    usec: Option<Seq<char>>,
) -> Option<Duration> {
    if !notify_enabled {
        None
    } else {
        match pid {
            None => None,
            Some(pid) => match crate::number::unsigned_text(pid, u32::MAX as nat) {
                None => None,
                Some(found) => if found != own_pid {
                    None
                } else {
                    match usec {
                        None => None,
                        Some(usec) => match crate::number::unsigned_text(usec, u64::MAX as nat) {
                            None => None,
                            Some(n) => Some(from_micros(n as u64)),
                        },
                    }
                },
            },
        }
    }
}

/// How often the service manager wants to hear from the process.
pub fn watchdog_timeout(
    notify_enabled: bool,
    pid: Option<&str>,
    own_pid: u32,
    usec: Option<&str>,
) -> (r: Option<Duration>)
    ensures
        r == watchdog(
            notify_enabled,
            crate::policy::name_view(pid),
            own_pid,
            crate::policy::name_view(usec),
        ),
{
    if !notify_enabled {
        return None;
    }
    let pid = match pid {
        Some(pid) => match parse_unsigned(pid, u32::MAX as u64) {
            Some(pid) => pid,
            None => return None,
        },
        None => return None,
    };
    if pid != own_pid as u64 {
        return None;
    }
    match usec {
        Some(usec) => match parse_unsigned(usec, u64::MAX) {
            Some(n) => Some(
                Duration { secs: n / 1_000_000, nanos: ((n % 1_000_000) * 1000) as u32 },
            ),
            None => None,
        },
        None => None,
    }
}

/// How many characters stand before the first colon.
pub open spec fn colon_at(s: Seq<char>) -> nat
    decreases s.len(),
{
    if s.len() == 0 || s[0] == ':' {
        0
    } else {
        1 + colon_at(s.skip(1))
    }
}

/// The device and the file number of the journal's stream.
pub open spec fn dev_ino(s: Seq<char>) -> Option<(u64, u64)> {
    let n = colon_at(s);
    if n >= s.len() {
        None
    } else {
        let dev = crate::number::unsigned_text(s.take(n as int), u64::MAX as nat);
        let ino = crate::number::unsigned_text(s.skip((n + 1) as int), u64::MAX as nat);
        match (dev, ino) {
            (Some(dev), Some(ino)) => Some((dev as u64, ino as u64)),
            _ => None,
        }
    }
}

/// Reads the device and the file number of the journal's stream.
pub fn parse_dev_ino(s: &str) -> (r: Option<(u64, u64)>)
    ensures
        r == dev_ino(s@),
{
    let len = s.unicode_len();
    let mut n: usize = 0;
    assert(s@.skip(0) =~= s@);
    while n < len && s.get_char(n) != ':'
        invariant
            len == s@.len(),
            n <= len,
            colon_at(s@) == n + colon_at(s@.skip(n as int)),
        decreases len - n,
    {
        assert(s@.skip(n as int).skip(1) =~= s@.skip(n + 1));
        n = n + 1;
    }
    if n == len {
        return None;
    }
    match (
        parse_unsigned(front(s, n), u64::MAX),
        parse_unsigned(rest(s, n + 1), u64::MAX),
    ) {
        (Some(dev), Some(ino)) => Some((dev, ino)),
        _ => None,
    }
}

/// Whether an open file is the journal's stream.
pub fn is_journal_stream(stream: Option<&str>, file: Option<(u64, u64)>) -> (r: bool)
    ensures
        r == match (stream, file) {
            (Some(s), Some(found)) => dev_ino(s@) == Some(found),
            _ => false,
        },
{
    match (stream, file) {
        (Some(s), Some(found)) => match parse_dev_ino(s) {
            Some(expected) => expected.0 == found.0 && expected.1 == found.1,
            None => false,
        },
        _ => false,
    }
}

/// The service manager hears from a process only where it asks for it: it can be
/// notified, means this process by its number and gives a span of time.
pub proof fn lemma_who_is_watched(
    notify_enabled: bool,
    pid: u32,
    own_pid: u32,
    usec: u64,
)
    ensures
        ({
            let span = Some(crate::text::dec(usec as nat));
            let asked = watchdog(
                notify_enabled,
                Some(crate::text::dec(pid as nat)),
                own_pid,
                span,
            );
            &&& !notify_enabled ==> asked is None
            &&& pid != own_pid ==> asked is None
            &&& notify_enabled && pid == own_pid ==> (asked matches Some(d) && d.secs * 1_000_000
                + d.nanos / 1000 == usec && d.nanos < 1_000_000_000)
            &&& watchdog(notify_enabled, None, own_pid, span) is None
            &&& watchdog(
                notify_enabled,
                Some(crate::text::dec(pid as nat)),
                own_pid,
                None,
            ) is None
        }),
{
    crate::number::lemma_unsigned_read_back(pid as nat, u32::MAX as nat);
    crate::number::lemma_unsigned_read_back(usec as nat, u64::MAX as nat);
}

/// Two numbers with a colon between them are the device and the file number.
pub proof fn lemma_stream_read_back(dev: u64, ino: u64)
    ensures
        dev_ino(crate::text::dec(dev as nat) + seq![':'] + crate::text::dec(ino as nat)) == Some(
            (dev, ino),
        ),
{
    let a = crate::text::dec(dev as nat);
    let b = crate::text::dec(ino as nat);
    let s = a + seq![':'] + b;
    crate::number::lemma_dec_digits(dev as nat);
    lemma_colon_at(a, b);
    assert(s.take(a.len() as int) =~= a);
    assert(s.skip((a.len() + 1) as int) =~= b);
    crate::number::lemma_unsigned_read_back(dev as nat, u64::MAX as nat);
    crate::number::lemma_unsigned_read_back(ino as nat, u64::MAX as nat);
}

proof fn lemma_colon_at(a: Seq<char>, b: Seq<char>)
    requires
        forall|i: int|
            0 <= i < a.len() ==> crate::number::digit_value(#[trigger] a[i], 10) is Some,
    ensures
        colon_at(a + seq![':'] + b) == a.len(),
    decreases a.len(),
{
    let s = a + seq![':'] + b;
    if a.len() > 0 {
        assert(s[0] == a[0]);
        assert(s.skip(1) =~= a.skip(1) + seq![':'] + b);
        assert forall|i: int| 0 <= i < a.skip(1).len() implies crate::number::digit_value(
            #[trigger] a.skip(1)[i],
            10,
        ) is Some by {
            assert(a.skip(1)[i] == a[i + 1]);
        }
        lemma_colon_at(a.skip(1), b);
    }
}

} // verus!
