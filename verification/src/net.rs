//! Network addresses as plain values, and their text form.

use crate::number::read_number;
use crate::text::{push_dec, rest};
use vstd::prelude::*;

verus! {

/// An IPv4 address; the first octet is the most significant byte.
#[derive(Debug, Clone, Copy, PartialEq, Eq, Hash, Structural)]
pub struct Ipv4Addr {
    pub bits: u32,
}

/// An IPv6 address; the first segment is the most significant one.
#[derive(Debug, Clone, Copy, PartialEq, Eq, Hash, Structural)]
pub struct Ipv6Addr {
    pub bits: u128,
}

/// An IP address of either family.
#[derive(Debug, Clone, Copy, PartialEq, Eq, Hash, Structural)]
pub enum IpAddr {
    V4(Ipv4Addr),
    V6(Ipv6Addr),
}

/// An IPv4 address with a port.
#[derive(Debug, Clone, Copy, PartialEq, Eq, Hash, Structural)]
pub struct SocketAddrV4 {
    pub ip: Ipv4Addr,
    pub port: u16,
}

/// An IPv6 address with a port.
#[derive(Debug, Clone, Copy, PartialEq, Eq, Hash, Structural)]
pub struct SocketAddrV6 {
    pub ip: Ipv6Addr,
    pub port: u16,
    pub flowinfo: u32,
    pub scope_id: u32,
}

/// An IP address of either family with a port.
#[derive(Debug, Clone, Copy, PartialEq, Eq, Hash, Structural)]
pub enum SocketAddr {
    V4(SocketAddrV4),
    V6(SocketAddrV6),
}

/// The bytes of a number, most significant first, `k` of them.
pub open spec fn bytes_of(n: nat, k: nat) -> Seq<u8>
    decreases k,
{
    if k == 0 {
        Seq::empty()
    } else {
        bytes_of(n / 256, (k - 1) as nat).push((n % 256) as u8)
    }
}

/// The number that bytes spell, most significant first.
pub open spec fn bytes_value(s: Seq<u8>) -> nat
    decreases s.len(),
{
    if s.len() == 0 {
        0
    } else {
        bytes_value(s.drop_last()) * 256 + s.last() as nat
    }
}

/// The 16-bit segments of a number, most significant first, `k` of them.
pub open spec fn segments_of(n: nat, k: nat) -> Seq<u16>
    decreases k,
{
    if k == 0 {
        Seq::empty()
    } else {
        segments_of(n / 65536, (k - 1) as nat).push((n % 65536) as u16)
    }
}

/// The number that 16-bit segments spell, most significant first.
pub open spec fn segments_value(s: Seq<u16>) -> nat
    decreases s.len(),
{
    if s.len() == 0 {
        0
    } else {
        segments_value(s.drop_last()) * 65536 + s.last() as nat
    }
}

/// `base` to the power of `k`.
pub open spec fn power(base: nat, k: nat) -> nat
    decreases k,
{
    if k == 0 {
        1
    } else {
        power(base, (k - 1) as nat) * base
    }
}

/// Bytes spell a number that fits into them.
pub proof fn lemma_bytes_bound(s: Seq<u8>)
    ensures
        bytes_value(s) < power(256, s.len()),
    decreases s.len(),
{
    if s.len() > 0 {
        lemma_bytes_bound(s.drop_last());
    }
}

/// Segments spell a number that fits into them.
pub proof fn lemma_segments_bound(s: Seq<u16>)
    ensures
        segments_value(s) < power(65536, s.len()),
    decreases s.len(),
{
    if s.len() > 0 {
        lemma_segments_bound(s.drop_last());
    }
}

/// A number is read back from its bytes.
pub proof fn lemma_bytes_read_back(n: nat, k: nat)
    requires
        n < power(256, k),
    ensures
        bytes_of(n, k).len() == k,
        bytes_value(bytes_of(n, k)) == n,
    decreases k,
{
    if k > 0 {
        assert(n / 256 < power(256, (k - 1) as nat)) by (nonlinear_arith)
            requires
                n < power(256, (k - 1) as nat) * 256,
        ;
        lemma_bytes_read_back(n / 256, (k - 1) as nat);
        assert(bytes_of(n, k).drop_last() =~= bytes_of(n / 256, (k - 1) as nat));
    }
}

/// A number is read back from its segments.
pub proof fn lemma_segments_read_back(n: nat, k: nat)
    requires
        n < power(65536, k),
    ensures
        segments_of(n, k).len() == k,
        segments_value(segments_of(n, k)) == n,
    decreases k,
{
    if k > 0 {
        assert(n / 65536 < power(65536, (k - 1) as nat)) by (nonlinear_arith)
            requires
                n < power(65536, (k - 1) as nat) * 65536,
        ;
        lemma_segments_read_back(n / 65536, (k - 1) as nat);
        assert(segments_of(n, k).drop_last() =~= segments_of(n / 65536, (k - 1) as nat));
    }
}

/// How many addresses there are.
pub proof fn lemma_address_sizes()
    ensures
        power(256, 4) == 0x1_0000_0000,
        power(256, 16) == u128::MAX + 1,
{
    lemma_powers();
}

proof fn lemma_powers()
    ensures
        power(256, 4) == 0x1_0000_0000,
        power(256, 16) == u128::MAX + 1,
        power(65536, 8) == u128::MAX + 1,
        forall|i: nat, j: nat| i <= j ==> power(65536, i) <= power(65536, j),
        forall|i: nat, j: nat| i <= j ==> power(256, i) <= power(256, j),
{
    reveal_with_fuel(power, 18);
    assert forall|i: nat, j: nat| i <= j implies power(65536, i) <= power(65536, j) by {
        lemma_power_grows(65536, i, j);
    }
    assert forall|i: nat, j: nat| i <= j implies power(256, i) <= power(256, j) by {
        lemma_power_grows(256, i, j);
    }
}

proof fn lemma_power_grows(base: nat, i: nat, j: nat)
    requires
        i <= j,
        base >= 1,
    ensures
        power(base, i) <= power(base, j),
    decreases j - i,
{
    if i < j {
        lemma_power_grows(base, i, (j - 1) as nat);
        let p = power(base, (j - 1) as nat);
        assert(p <= p * base) by (nonlinear_arith)
            requires
                base >= 1,
        ;
    }
}

/// The bytes of a number of 32 bits.
pub(crate) proof fn lemma_four_octets(n: nat, a: u8, b: u8, c: u8, d: u8)
    requires
        n == a * 0x100_0000 + b * 0x1_0000 + c * 0x100 + d,
    ensures
        bytes_of(n, 4) == seq![a, b, c, d],
{
    let m = n / 256;
    let k = m / 256;
    let j = k / 256;
    assert(n % 256 == d && m == a * 0x1_0000 + b * 0x100 + c);
    assert(m % 256 == c && k == a * 0x100 + b);
    assert(k % 256 == b && j == a);
    assert(j % 256 == a);
    assert(bytes_of(j / 256, 0) =~= Seq::<u8>::empty());
    assert(bytes_of(j, 1) =~= seq![a]);
    assert(bytes_of(k, 2) =~= seq![a, b]);
    assert(bytes_of(m, 3) =~= seq![a, b, c]);
    assert(bytes_of(n, 4) =~= seq![a, b, c, d]);
}

impl Ipv4Addr {
    /// The four octets of the address.
    pub open spec fn octets_spec(self) -> Seq<u8> {
        bytes_of(self.bits as nat, 4)
    }

    /// The address with the given octets.
    pub fn new(a: u8, b: u8, c: u8, d: u8) -> (r: Ipv4Addr)
        ensures
            r.octets_spec() == seq![a, b, c, d],
            r.bits == ((a * 256 + b) * 256 + c) * 256 + d,
    {
        let bits: u32 = (((a as u32) * 256 + (b as u32)) * 256 + (c as u32)) * 256 + (d as u32);
        let r = Ipv4Addr { bits };
        proof {
            lemma_four_octets(bits as nat, a, b, c, d);
        }
        r
    }

    /// The four octets of the address.
    #[verifier::rlimit(40)]
    pub fn octets(&self) -> (r: Vec<u8>)
        ensures
            r@ == self.octets_spec(),
            r@.len() == 4,
    {
        let mut r: Vec<u8> = Vec::new();
        r.push((self.bits / 0x100_0000) as u8);
        r.push((self.bits / 0x1_0000 % 0x100) as u8);
        r.push((self.bits / 0x100 % 0x100) as u8);
        r.push((self.bits % 0x100) as u8);
        proof {
            reveal_with_fuel(bytes_of, 5);
            assert(r@ =~= self.octets_spec());
        }
        r
    }

    /// The address inside IPv6 that stands for this one.
    pub fn to_ipv6_mapped(&self) -> (r: Ipv6Addr)
        ensures
            r.bits == 0xffff_0000_0000 + self.bits,
    {
        Ipv6Addr { bits: 0xffff_0000_0000u128 + (self.bits as u128) }
    }
}

impl Ipv6Addr {
    /// The sixteen octets of the address.
    pub open spec fn octets_spec(self) -> Seq<u8> {
        bytes_of(self.bits as nat, 16)
    }

    /// The eight segments of the address.
    pub open spec fn segments_spec(self) -> Seq<u16> {
        segments_of(self.bits as nat, 8)
    }

    /// The IPv4 address that this one stands for, if it is a mapped one.
    pub open spec fn mapped_spec(self) -> Option<Ipv4Addr> {
        if self.bits / 0x1_0000_0000 == 0xffff {
            Some(Ipv4Addr { bits: (self.bits % 0x1_0000_0000) as u32 })
        } else {
            None
        }
    }

    /// The IPv4 address that this one stands for, if it is a mapped one.
    pub fn to_ipv4_mapped(&self) -> (r: Option<Ipv4Addr>)
        ensures
            r == self.mapped_spec(),
    {
        if self.bits / 0x1_0000_0000 == 0xffff {
            Some(Ipv4Addr { bits: (self.bits % 0x1_0000_0000) as u32 })
        } else {
            None
        }
    }

    /// The eight segments of the address.
    pub fn segments(&self) -> (r: Vec<u16>)
        ensures
            r@ == self.segments_spec(),
            r@.len() == 8,
    {
        let mut r: Vec<u16> = Vec::new();
        push_segments(&mut r, self.bits, 8);
        proof {
            lemma_segments_length(self.bits as nat, 8);
            assert(r@ =~= self.segments_spec());
        }
        r
    }

    /// The sixteen octets of the address.
    pub fn octets(&self) -> (r: Vec<u8>)
        ensures
            r@ == self.octets_spec(),
            r@.len() == 16,
    {
        let mut r: Vec<u8> = Vec::new();
        push_octets(&mut r, self.bits, 16);
        proof {
            lemma_bytes_length(self.bits as nat, 16);
            assert(r@ =~= self.octets_spec());
        }
        r
    }
}

proof fn lemma_segments_length(n: nat, k: nat)
    ensures
        segments_of(n, k).len() == k,
    decreases k,
{
    if k > 0 {
        lemma_segments_length(n / 65536, (k - 1) as nat);
    }
}

/// As many bytes as asked for.
pub proof fn lemma_bytes_length(n: nat, k: nat)
    ensures
        bytes_of(n, k).len() == k,
    decreases k,
{
    if k > 0 {
        lemma_bytes_length(n / 256, (k - 1) as nat);
    }
}

fn push_segments(buf: &mut Vec<u16>, n: u128, k: u8)
    ensures
        final(buf)@ == old(buf)@ + segments_of(n as nat, k as nat),
    decreases k,
{
    if k > 0 {
        push_segments(buf, n / 65536, k - 1);
        buf.push((n % 65536) as u16);
    }
    assert(buf@ =~= old(buf)@ + segments_of(n as nat, k as nat));
}

fn push_octets(buf: &mut Vec<u8>, n: u128, k: u8)
    ensures
        final(buf)@ == old(buf)@ + bytes_of(n as nat, k as nat),
    decreases k,
{
    if k > 0 {
        push_octets(buf, n / 256, k - 1);
        buf.push((n % 256) as u8);
    }
    assert(buf@ =~= old(buf)@ + bytes_of(n as nat, k as nat));
}

/// The number that up to sixteen bytes spell.
pub fn number_of_bytes(s: &[u8]) -> (n: u128)
    requires
        s@.len() <= 16,
    ensures
        n == bytes_value(s@),
{
    let len = s.len();
    let mut n: u128 = 0;
    let mut i: usize = 0;
    proof {
        lemma_powers();
    }
    while i < len
        invariant
            len == s@.len(),
            len <= 16,
            i <= len,
            n == bytes_value(s@.take(i as int)),
            power(256, 16) == u128::MAX + 1,
            forall|i: nat, j: nat| i <= j ==> power(256, i) <= power(256, j),
        decreases len - i,
    {
        proof {
            let next = s@.take(i + 1);
            lemma_bytes_bound(next);
            assert(next.drop_last() =~= s@.take(i as int));
            assert(power(256, next.len()) <= power(256, 16));
        }
        n = n * 256 + (s[i] as u128);
        i = i + 1;
    }
    assert(s@.take(len as int) =~= s@);
    n
}

/// The IPv4 address that is meant by an address: itself, or the one that an
/// IPv6 address stands for.
pub open spec fn canonical_spec(ip: IpAddr) -> IpAddr {
    match ip {
        IpAddr::V4(_) => ip,
        IpAddr::V6(v6) => match v6.mapped_spec() {
            Some(v4) => IpAddr::V4(v4),
            None => ip,
        },
    }
}

/// Turns an IPv6 address that stands for an IPv4 one into the latter.
pub fn canonical(ip: IpAddr) -> (r: IpAddr)
    ensures
        r == canonical_spec(ip),
{
    match ip {
        IpAddr::V4(_) => ip,
        IpAddr::V6(v6) => match v6.to_ipv4_mapped() {
            Some(v4) => IpAddr::V4(v4),
            None => ip,
        },
    }
}

/// An address mapped into IPv6 means the address itself.
pub proof fn lemma_mapped_is_canonical(v4: Ipv4Addr, v6: Ipv6Addr)
    requires
        v6.bits == 0xffff_0000_0000 + v4.bits,
    ensures
        canonical_spec(IpAddr::V6(v6)) == IpAddr::V4(v4),
{
}

impl SocketAddr {
    /// The IP address.
    pub open spec fn ip_spec(self) -> IpAddr {
        match self {
            SocketAddr::V4(s) => IpAddr::V4(s.ip),
            SocketAddr::V6(s) => IpAddr::V6(s.ip),
        }
    }

    /// The port.
    pub open spec fn port_spec(self) -> u16 {
        match self {
            SocketAddr::V4(s) => s.port,
            SocketAddr::V6(s) => s.port,
        }
    }

    /// The IP address.
    pub fn ip(&self) -> (r: IpAddr)
        ensures
            r == self.ip_spec(),
    {
        match self {
            SocketAddr::V4(s) => IpAddr::V4(s.ip),
            SocketAddr::V6(s) => IpAddr::V6(s.ip),
        }
    }

    /// The port.
    pub fn port(&self) -> (r: u16)
        ensures
            r == self.port_spec(),
    {
        match self {
            SocketAddr::V4(s) => s.port,
            SocketAddr::V6(s) => s.port,
        }
    }
}

// ---- text ----

/// The decimal number up to 255 that a text starts with; a number of more than
/// one digit does not start with zero.
pub open spec fn octet_at(s: Seq<char>) -> Option<(nat, nat)> {
    match crate::number::number_at(s, 10, 255) {
        Some((n, v)) => if n > 3 || (n > 1 && s[0] == '0') {
            None
        } else {
            Some((n, v))
        },
        None => None,
    }
}

/// The `k` octets, with dots between them, that a text starts with: how many
/// characters they take and the number that they spell.
pub open spec fn octets_at(s: Seq<char>, k: nat) -> Option<(nat, nat)>
    decreases k,
{
    if k <= 1 {
        octet_at(s)
    } else {
        match octets_at(s, (k - 1) as nat) {
            None => None,
            Some((n, v)) => if n < s.len() && s[n as int] == '.' {
                match octet_at(s.skip((n + 1) as int)) {
                    None => None,
                    Some((m, d)) => Some((n + 1 + m, v * 256 + d)),
                }
            } else {
                None
            },
        }
    }
}

/// The IPv4 address that a text starts with.
#[verifier::opaque]
pub open spec fn ipv4_at(s: Seq<char>) -> Option<(nat, nat)> {
    octets_at(s, 4)
}

/// The group of one to four hexadecimal digits that a text starts with.
pub open spec fn group_at(s: Seq<char>) -> Option<(nat, nat)> {
    match crate::number::number_at(s, 16, 0xffff) {
        Some((n, v)) => if n > 4 {
            None
        } else {
            Some((n, v))
        },
        None => None,
    }
}

/// Groups that a text starts with: the characters that they take, the groups
/// themselves, and whether the last two were written as an IPv4 address.
pub struct Groups {
    pub taken: nat,
    pub groups: Seq<u16>,
    pub dotted: bool,
}

/// The groups, with colons between them, that a text starts with where `i`
/// groups stand before it, up to `limit` of them in all. The last two may be
/// written as an IPv4 address.
pub open spec fn groups_at(s: Seq<char>, i: nat, limit: nat) -> Groups
    decreases limit - i,
{
    let none = Groups { taken: 0, groups: Seq::empty(), dotted: false };
    if i >= limit || (i > 0 && (s.len() == 0 || s[0] != ':')) {
        none
    } else {
        let sep: nat = if i > 0 {
            1
        } else {
            0
        };
        let t = s.skip(sep as int);
        if i + 1 < limit && ipv4_at(t) is Some {
            let (n, v) = ipv4_at(t).unwrap();
            Groups {
                taken: sep + n,
                groups: seq![(v / 65536) as u16, (v % 65536) as u16],
                dotted: true,
            }
        } else {
            match group_at(t) {
                None => none,
                Some((n, g)) => {
                    let r = groups_at(t.skip(n as int), i + 1, limit);
                    Groups {
                        taken: sep + n + r.taken,
                        groups: seq![g as u16] + r.groups,
                        dotted: r.dotted,
                    }
                },
            }
        }
    }
}

/// `k` groups of zeros.
pub open spec fn zero_groups(k: nat) -> Seq<u16> {
    Seq::new(k, |i: int| 0u16)
}

/// The IPv6 address that a text starts with: eight groups, or fewer with `::`
/// for the groups of zeros that are left out.
pub open spec fn ipv6_at(s: Seq<char>) -> Option<(nat, nat)> {
    let head = groups_at(s, 0, 8);
    let k = head.groups.len();
    let t = s.skip(head.taken as int);
    if k >= 8 {
        Some((head.taken, segments_value(head.groups)))
    } else if head.dotted || t.len() < 2 || t[0] != ':' || t[1] != ':' {
        None
    } else {
        let tail = groups_at(t.skip(2), 0, (7 - k) as nat);
        Some(
            (
                head.taken + 2 + tail.taken,
                segments_value(
                    head.groups + zero_groups((8 - k - tail.groups.len()) as nat) + tail.groups,
                ),
            ),
        )
    }
}

/// The address that a whole text is.
pub open spec fn ip_text(s: Seq<char>) -> Option<IpAddr> {
    match ip_at(s) {
        Some((n, ip)) => if n == s.len() {
            Some(ip)
        } else {
            None
        },
        None => None,
    }
}

/// The address of either family that a text starts with; an IPv4 address is
/// looked for first.
pub open spec fn ip_at(s: Seq<char>) -> Option<(nat, IpAddr)> {
    match ipv4_at(s) {
        Some((n, v)) => Some((n, IpAddr::V4(Ipv4Addr { bits: v as u32 }))),
        None => match ipv6_at(s) {
            Some((n, v)) => Some((n, IpAddr::V6(Ipv6Addr { bits: v as u128 }))),
            None => None,
        },
    }
}

/// The port after a colon that makes up a whole text.
pub open spec fn port_text(s: Seq<char>) -> Option<u16> {
    if s.len() == 0 || s[0] != ':' {
        None
    } else {
        match crate::number::number_at(s.skip(1), 10, 0xffff) {
            Some((n, v)) => if n + 1 == s.len() {
                Some(v as u16)
            } else {
                None
            },
            None => None,
        }
    }
}

/// What stands after the IPv6 address inside square brackets: an optional scope
/// after a percent sign, the closing bracket, and the port.
pub open spec fn scope_and_port(s: Seq<char>) -> Option<(u32, u16)> {
    if s.len() > 0 && s[0] == '%' {
        match crate::number::number_at(s.skip(1), 10, 0xffff_ffff) {
            Some((n, v)) => if n + 1 < s.len() && s[(n + 1) as int] == ']' {
                match port_text(s.skip((n + 2) as int)) {
                    Some(port) => Some((v as u32, port)),
                    None => None,
                }
            } else {
                None
            },
            None => None,
        }
    } else if s.len() > 0 && s[0] == ']' {
        match port_text(s.skip(1)) {
            Some(port) => Some((0, port)),
            None => None,
        }
    } else {
        None
    }
}

/// The socket address that a whole text is: `address:port`, with an IPv6
/// address in square brackets.
pub open spec fn socket_text(s: Seq<char>) -> Option<SocketAddr> {
    match ipv4_at(s) {
        Some((n, v)) => match port_text(s.skip(n as int)) {
            Some(port) => Some(
                SocketAddr::V4(SocketAddrV4 { ip: Ipv4Addr { bits: v as u32 }, port }),
            ),
            None => None,
        },
        None => if s.len() == 0 || s[0] != '[' {
            None
        } else {
            match ipv6_at(s.skip(1)) {
                None => None,
                Some((n, v)) => match scope_and_port(s.skip((1 + n) as int)) {
                    None => None,
                    Some((scope_id, port)) => Some(
                        SocketAddr::V6(
                            SocketAddrV6 {
                                ip: Ipv6Addr { bits: v as u128 },
                                port,
                                flowinfo: 0,
                                scope_id,
                            },
                        ),
                    ),
                },
            }
        },
    }
}

fn read_octet(s: &str) -> (r: Option<(usize, u32)>)
    ensures
        match octet_at(s@) {
            Some((n, v)) => r matches Some((m, w)) && m == n && w == v && n <= s@.len() && v <= 255,
            None => r is None,
        },
{
    match read_number(s, 10, 255) {
        Some((n, v)) => {
            proof {
                crate::number::lemma_digit_run(s@, 10);
            }
            if n > 3 || (n > 1 && s.get_char(0) == '0') {
                None
            } else {
                Some((n, v as u32))
            }
        },
        None => None,
    }
}

fn read_octets(s: &str, k: u8) -> (r: Option<(usize, u32)>)
    requires
        1 <= k <= 4,
    ensures
        match octets_at(s@, k as nat) {
            Some((n, v)) => {
                &&& r matches Some((m, w))
                &&& m == n
                &&& w == v
                &&& n <= s@.len()
                &&& v < power(256, k as nat)
            },
            None => r is None,
        },
    decreases k,
{
    proof {
        lemma_powers();
        assert(power(256, k as nat) == power(256, (k - 1) as nat) * 256);
        assert(power(256, 0) == 1);
    }
    if k == 1 {
        return read_octet(s);
    }
    match read_octets(s, k - 1) {
        None => None,
        Some((n, v)) => {
            if n < s.unicode_len() && s.get_char(n) == '.' {
                match read_octet(rest(s, n + 1)) {
                    None => None,
                    Some((m, d)) => {
                        proof {
                            assert(power(256, k as nat) <= power(256, 4));
                        }
                        Some((n + 1 + m, v * 256 + d))
                    },
                }
            } else {
                None
            }
        },
    }
}

/// Reads the IPv4 address that `s` starts with.
pub fn read_ipv4(s: &str) -> (r: Option<(usize, Ipv4Addr)>)
    ensures
        match ipv4_at(s@) {
            Some((n, v)) => {
                &&& r matches Some((m, ip))
                &&& m == n
                &&& ip.bits == v
                &&& n <= s@.len()
                &&& v <= u32::MAX
            },
            None => r is None,
        },
{
    reveal(ipv4_at);
    proof {
        lemma_powers();
    }
    match read_octets(s, 4) {
        Some((n, v)) => Some((n, Ipv4Addr { bits: v })),
        None => None,
    }
}

fn read_group(s: &str) -> (r: Option<(usize, u16)>)
    ensures
        match group_at(s@) {
            Some((n, v)) => r matches Some((m, w)) && m == n && w == v && n <= s@.len() && v <= 0xffff,
            None => r is None,
        },
{
    match read_number(s, 16, 0xffff) {
        Some((n, v)) => if n > 4 {
            None
        } else {
            Some((n, v as u16))
        },
        None => None,
    }
}

/// Reads groups onto `groups`, and says how far it came and whether it ended
/// with an IPv4 address.
#[verifier::spinoff_prover]
fn read_groups(s: &str, i: u8, limit: u8, groups: &mut Vec<u16>) -> (r: (usize, bool))
    requires
        i <= limit <= 8,
    ensures
        ({
            let g = groups_at(s@, i as nat, limit as nat);
            &&& r.0 == g.taken
            &&& r.1 == g.dotted
            &&& final(groups)@ == old(groups)@ + g.groups
            &&& g.taken <= s@.len()
            &&& g.groups.len() + i <= limit
        }),
    decreases limit - i,
{
    let ghost before = groups@;
    let len = s.unicode_len();
    if i >= limit || (i > 0 && (len == 0 || s.get_char(0) != ':')) {
        assert(groups@ =~= before + Seq::<u16>::empty());
        return (0, false);
    }
    let sep: usize = if i > 0 {
        1
    } else {
        0
    };
    let t = rest(s, sep);
    if i + 1 < limit {
        if let Some((n, ip)) = read_ipv4(t) {
            groups.push((ip.bits / 65536) as u16);
            groups.push((ip.bits % 65536) as u16);
            assert(groups@ =~= before + seq![(ip.bits / 65536) as u16, (ip.bits % 65536) as u16]);
            return (sep + n, true);
        }
    }
    match read_group(t) {
        None => {
            assert(groups@ =~= before + Seq::<u16>::empty());
            (0, false)
        },
        Some((n, g)) => {
            groups.push(g);
            let (m, dotted) = read_groups(rest(t, n), i + 1, limit, groups);
            proof {
                let tail = groups_at(t@.skip(n as int), (i + 1) as nat, limit as nat);
                assert(groups@ =~= before + (seq![g] + tail.groups));
            }
            (sep + n + m, dotted)
        },
    }
}

fn number_of_segments(s: &Vec<u16>) -> (n: u128)
    requires
        s@.len() == 8,
    ensures
        n == segments_value(s@),
{
    let mut n: u128 = 0;
    let mut i: usize = 0;
    proof {
        lemma_powers();
    }
    while i < 8
        invariant
            s@.len() == 8,
            i <= 8,
            n == segments_value(s@.take(i as int)),
            power(65536, 8) == u128::MAX + 1,
            forall|i: nat, j: nat| i <= j ==> power(65536, i) <= power(65536, j),
        decreases 8 - i,
    {
        proof {
            let next = s@.take(i + 1);
            lemma_segments_bound(next);
            assert(next.drop_last() =~= s@.take(i as int));
            assert(power(65536, next.len()) <= power(65536, 8));
        }
        n = n * 65536 + (s[i] as u128);
        i = i + 1;
    }
    assert(s@.take(8) =~= s@);
    n
}

/// Reads the IPv6 address that `s` starts with.
pub fn read_ipv6(s: &str) -> (r: Option<(usize, Ipv6Addr)>)
    ensures
        match ipv6_at(s@) {
            Some((n, v)) => {
                &&& r matches Some((m, ip))
                &&& m == n
                &&& ip.bits == v
                &&& n <= s@.len()
                &&& v <= u128::MAX
            },
            None => r is None,
        },
{
    let len = s.unicode_len();
    let mut head: Vec<u16> = Vec::new();
    let (taken, dotted) = read_groups(s, 0, 8, &mut head);
    let ghost found = groups_at(s@, 0, 8);
    assert(head@ =~= found.groups);
    let k = head.len();
    if k >= 8 {
        return Some((taken, Ipv6Addr { bits: number_of_segments(&head) }));
    }
    let t = rest(s, taken);
    if dotted || len - taken < 2 || t.get_char(0) != ':' || t.get_char(1) != ':' {
        return None;
    }
    let mut tail: Vec<u16> = Vec::new();
    let (tail_taken, _) = read_groups(rest(t, 2), 0, 7 - (k as u8), &mut tail);
    let ghost end = groups_at(t@.skip(2), 0, (7 - k) as nat);
    assert(tail@ =~= end.groups);
    let missing: usize = 8 - k - tail.len();
    let mut z: usize = 0;
    while z < missing
        invariant
            z <= missing,
            head@ == found.groups + zero_groups(z as nat),
        decreases missing - z,
    {
        head.push(0);
        z = z + 1;
        assert(head@ =~= found.groups + zero_groups(z as nat));
    }
    let ghost front = head@;
    head.append(&mut tail);
    proof {
        assert(head@ =~= found.groups + zero_groups((8 - k - end.groups.len()) as nat)
            + end.groups);
        lemma_segments_bound(head@);
        lemma_powers();
    }
    Some((taken + 2 + tail_taken, Ipv6Addr { bits: number_of_segments(&head) }))
}

/// Reads the address of either family that `s` starts with.
pub fn read_ip(s: &str) -> (r: Option<(usize, IpAddr)>)
    ensures
        match ip_at(s@) {
            Some((n, ip)) => r matches Some((m, found)) && m == n && found == ip && n <= s@.len(),
            None => r is None,
        },
{
    match read_ipv4(s) {
        Some((n, ip)) => Some((n, IpAddr::V4(ip))),
        None => match read_ipv6(s) {
            Some((n, ip)) => Some((n, IpAddr::V6(ip))),
            None => None,
        },
    }
}

/// Reads a whole text as an address.
pub fn parse_ip(s: &str) -> (r: Option<IpAddr>)
    ensures
        r == ip_text(s@),
{
    match read_ip(s) {
        Some((n, ip)) => if n == s.unicode_len() {
            Some(ip)
        } else {
            None
        },
        None => None,
    }
}

fn parse_port(s: &str) -> (r: Option<u16>)
    ensures
        r == port_text(s@),
{
    if s.unicode_len() == 0 || s.get_char(0) != ':' {
        return None;
    }
    match read_number(rest(s, 1), 10, 0xffff) {
        Some((n, v)) => if n == s.unicode_len() - 1 {
            Some(v as u16)
        } else {
            None
        },
        None => None,
    }
}

fn parse_scope_and_port(s: &str) -> (r: Option<(u32, u16)>)
    ensures
        r == scope_and_port(s@),
{
    let len = s.unicode_len();
    if len == 0 {
        return None;
    }
    let c = s.get_char(0);
    if c == '%' {
        match read_number(rest(s, 1), 10, 0xffff_ffff) {
            Some((n, v)) => if n < len - 1 && s.get_char(n + 1) == ']' {
                match parse_port(rest(s, n + 2)) {
                    Some(port) => Some((v as u32, port)),
                    None => None,
                }
            } else {
                None
            },
            None => None,
        }
    } else if c == ']' {
        match parse_port(rest(s, 1)) {
            Some(port) => Some((0, port)),
            None => None,
        }
    } else {
        None
    }
}

/// Reads a whole text as a socket address.
pub fn parse_socket_addr(s: &str) -> (r: Option<SocketAddr>)
    ensures
        r == socket_text(s@),
{
    match read_ipv4(s) {
        Some((n, ip)) => match parse_port(rest(s, n)) {
            Some(port) => Some(SocketAddr::V4(SocketAddrV4 { ip, port })),
            None => None,
        },
        None => {
            if s.unicode_len() == 0 || s.get_char(0) != '[' {
                return None;
            }
            let t = rest(s, 1);
            match read_ipv6(t) {
                None => None,
                Some((n, ip)) => {
                    let u = rest(t, n);
                    assert(u@ =~= s@.skip(1 + n));
                    match parse_scope_and_port(u) {
                        None => None,
                        Some((scope_id, port)) => Some(
                            SocketAddr::V6(SocketAddrV6 { ip, port, flowinfo: 0, scope_id }),
                        ),
                    }
                },
            }
        },
    }
}

// ---- formatting ----

/// The character of a hexadecimal digit, in lower case.
pub open spec fn hex_digit(n: nat) -> char {
    if n < 10 {
        crate::text::digit_char(n)
    } else {
        (('a' as nat) + n - 10) as char
    }
}

/// The hexadecimal notation of `n`, without leading zeros.
pub open spec fn hex(n: nat) -> Seq<char>
    decreases n,
{
    if n < 16 {
        seq![hex_digit(n)]
    } else {
        hex(n / 16).push(hex_digit(n % 16))
    }
}

/// Numbers in decimal with dots between them.
pub open spec fn dotted(s: Seq<u8>) -> Seq<char>
    decreases s.len(),
{
    if s.len() == 0 {
        Seq::empty()
    } else if s.len() == 1 {
        crate::text::dec(s[0] as nat)
    } else {
        dotted(s.drop_last()).push('.') + crate::text::dec(s.last() as nat)
    }
}

/// Segments in hexadecimal with colons between them.
pub open spec fn coloned(s: Seq<u16>) -> Seq<char>
    decreases s.len(),
{
    if s.len() == 0 {
        Seq::empty()
    } else if s.len() == 1 {
        hex(s[0] as nat)
    } else {
        coloned(s.drop_last()).push(':') + hex(s.last() as nat)
    }
}

/// How many segments from `i` on are zero, up to the first that is not.
pub open spec fn zero_run(s: Seq<u16>, i: int) -> nat
    decreases s.len() - i,
{
    if i < 0 || i >= s.len() || s[i] != 0 {
        0
    } else {
        1 + zero_run(s, i + 1)
    }
}

/// The first of the positions below `n` at which the run of zeros is longest.
pub open spec fn longest_zeros(s: Seq<u16>, n: int) -> int
    decreases n,
{
    if n <= 1 {
        0
    } else {
        let best = longest_zeros(s, n - 1);
        if zero_run(s, n - 1) > zero_run(s, best) {
            n - 1
        } else {
            best
        }
    }
}

/// The text of an IPv4 address.
pub open spec fn ipv4_spelled(ip: Ipv4Addr) -> Seq<char> {
    dotted(ip.octets_spec())
}

/// The text of an IPv6 address: a mapped IPv4 address ends in dotted form; the
/// first of the longest runs of two or more zero segments is written `::`.
pub open spec fn ipv6_spelled(ip: Ipv6Addr) -> Seq<char> {
    match ip.mapped_spec() {
        Some(v4) => "::ffff:"@ + ipv4_spelled(v4),
        None => {
            let s = ip.segments_spec();
            let start = longest_zeros(s, 8);
            let len = zero_run(s, start);
            if len > 1 {
                coloned(s.take(start)) + "::"@ + coloned(s.skip(start + len))
            } else {
                coloned(s)
            }
        },
    }
}

/// The text of an IP address.
pub open spec fn ip_spelled(ip: IpAddr) -> Seq<char> {
    match ip {
        IpAddr::V4(v4) => ipv4_spelled(v4),
        IpAddr::V6(v6) => ipv6_spelled(v6),
    }
}

/// The text of a socket address.
pub open spec fn socket_spelled(addr: SocketAddr) -> Seq<char> {
    match addr {
        SocketAddr::V4(s) => ipv4_spelled(s.ip).push(':') + crate::text::dec(s.port as nat),
        SocketAddr::V6(s) => {
            let ip = if s.scope_id == 0 {
                ipv6_spelled(s.ip)
            } else {
                ipv6_spelled(s.ip).push('%') + crate::text::dec(s.scope_id as nat)
            };
            seq!['['] + ip + "]:"@ + crate::text::dec(s.port as nat)
        },
    }
}

fn push_hex(buf: &mut String, n: u16)
    ensures
        final(buf)@ == old(buf)@ + hex(n as nat),
    decreases n,
{
    if n >= 16 {
        push_hex(buf, n / 16);
    }
    let d: u8 = (n % 16) as u8;
    if d < 10 {
        buf.push((('0' as u8) + d) as char);
    } else {
        buf.push((('a' as u8) + (d - 10)) as char);
    }
    assert(buf@ =~= old(buf)@ + hex(n as nat));
}

fn push_dotted(buf: &mut String, ip: Ipv4Addr)
    ensures
        final(buf)@ == old(buf)@ + ipv4_spelled(ip),
{
    let octets = ip.octets();
    let ghost before = buf@;
    let mut i: usize = 0;
    while i < 4
        invariant
            i <= 4,
            octets@.len() == 4,
            buf@ == before + dotted(octets@.take(i as int)),
        decreases 4 - i,
    {
        if i > 0 {
            buf.push('.');
        }
        push_dec(buf, octets[i] as u64);
        proof {
            let next = octets@.take(i + 1);
            assert(next.drop_last() =~= octets@.take(i as int));
            assert(buf@ =~= before + dotted(next));
        }
        i = i + 1;
    }
    assert(octets@.take(4) =~= octets@);
}

fn push_coloned(buf: &mut String, segments: &Vec<u16>, from: usize, to: usize)
    requires
        from <= to <= segments@.len(),
    ensures
        final(buf)@ == old(buf)@ + coloned(segments@.subrange(from as int, to as int)),
{
    let ghost before = buf@;
    let mut i: usize = from;
    while i < to
        invariant
            from <= i <= to <= segments@.len(),
            buf@ == before + coloned(segments@.subrange(from as int, i as int)),
        decreases to - i,
    {
        if i > from {
            buf.push(':');
        }
        push_hex(buf, segments[i]);
        proof {
            let next = segments@.subrange(from as int, i + 1);
            assert(next.drop_last() =~= segments@.subrange(from as int, i as int));
            assert(buf@ =~= before + coloned(next));
        }
        i = i + 1;
    }
}

fn zeros_from(s: &Vec<u16>, i: usize) -> (n: usize)
    requires
        i <= s@.len(),
    ensures
        n == zero_run(s@, i as int),
        i + n <= s@.len(),
    decreases s@.len() - i,
{
    if i == s.len() || s[i] != 0 {
        0
    } else {
        1 + zeros_from(s, i + 1)
    }
}

fn first_longest_zeros(s: &Vec<u16>) -> (r: (usize, usize))
    requires
        s@.len() == 8,
    ensures
        r.0 == longest_zeros(s@, 8),
        r.1 == zero_run(s@, r.0 as int),
        r.0 + r.1 <= 8,
{
    let mut best: usize = 0;
    let mut run = zeros_from(s, 0);
    let mut i: usize = 1;
    while i < 8
        invariant
            s@.len() == 8,
            1 <= i <= 8,
            best == longest_zeros(s@, i as int),
            run == zero_run(s@, best as int),
            best + run <= 8,
        decreases 8 - i,
    {
        let n = zeros_from(s, i);
        if n > run {
            best = i;
            run = n;
        }
        i = i + 1;
    }
    (best, run)
}

fn push_ipv6(buf: &mut String, ip: Ipv6Addr)
    ensures
        final(buf)@ == old(buf)@ + ipv6_spelled(ip),
{
    let ghost before = buf@;
    match ip.to_ipv4_mapped() {
        Some(v4) => {
            buf.append("::ffff:");
            push_dotted(buf, v4);
            assert(buf@ =~= before + ("::ffff:"@ + ipv4_spelled(v4)));
        },
        None => {
            let s = ip.segments();
            let (start, len) = first_longest_zeros(&s);
            if len > 1 {
                push_coloned(buf, &s, 0, start);
                buf.append("::");
                push_coloned(buf, &s, start + len, 8);
                proof {
                    assert(s@.subrange(0, start as int) =~= s@.take(start as int));
                    assert(s@.subrange(start + len, 8) =~= s@.skip(start + len));
                    assert(buf@ =~= before + ipv6_spelled(ip));
                }
            } else {
                push_coloned(buf, &s, 0, 8);
                assert(s@.subrange(0, 8) =~= s@);
            }
        },
    }
}

/// Appends the text of an IP address.
pub fn push_ip(buf: &mut String, ip: IpAddr)
    ensures
        final(buf)@ == old(buf)@ + ip_spelled(ip),
{
    match ip {
        IpAddr::V4(v4) => push_dotted(buf, v4),
        IpAddr::V6(v6) => push_ipv6(buf, v6),
    }
}

/// Appends the text of a socket address.
pub fn push_socket_addr(buf: &mut String, addr: SocketAddr)
    ensures
        final(buf)@ == old(buf)@ + socket_spelled(addr),
{
    let ghost before = buf@;
    match addr {
        SocketAddr::V4(s) => {
            push_dotted(buf, s.ip);
            buf.push(':');
            push_dec(buf, s.port as u64);
        },
        SocketAddr::V6(s) => {
            buf.push('[');
            push_ipv6(buf, s.ip);
            if s.scope_id != 0 {
                buf.push('%');
                push_dec(buf, s.scope_id as u64);
            }
            buf.append("]:");
            push_dec(buf, s.port as u64);
        },
    }
    assert(buf@ =~= before + socket_spelled(addr));
}

impl IpAddr {
    /// The text of the address.
    pub fn to_string(&self) -> (s: String)
        ensures
            s@ == ip_spelled(*self),
    {
        let mut s = String::new();
        push_ip(&mut s, *self);
        assert(s@ =~= ip_spelled(*self));
        s
    }
}

impl SocketAddr {
    /// The text of the address.
    pub fn to_string(&self) -> (s: String)
        ensures
            s@ == socket_spelled(*self),
    {
        let mut s = String::new();
        push_socket_addr(&mut s, *self);
        assert(s@ =~= socket_spelled(*self));
        s
    }
}

// ---- what is written is read back ----

/// A decimal number is read back from its digits, whatever follows them.
pub proof fn lemma_octet_read_back(n: u8, tail: Seq<char>)
    requires
        tail.len() > 0 ==> crate::number::digit_value(tail[0], 10) is None,
    ensures
        octet_at(crate::text::dec(n as nat) + tail) == Some(
            (crate::text::dec(n as nat).len(), n as nat),
        ),
{
    let digits = crate::text::dec(n as nat);
    crate::number::lemma_number_read_back(n as nat, tail, 255);
    reveal_with_fuel(crate::text::dec, 4);
    if n >= 10 {
        assert((digits + tail)[0] == digits[0]);
    }
}

proof fn lemma_octets_read_back(s: Seq<u8>, tail: Seq<char>)
    requires
        s.len() > 0,
        tail.len() > 0 ==> crate::number::digit_value(tail[0], 10) is None,
    ensures
        octets_at(dotted(s) + tail, s.len()) == Some((dotted(s).len(), bytes_value(s))),
    decreases s.len(),
{
    let front = dotted(s.drop_last());
    let last = crate::text::dec(s.last() as nat);
    if s.len() == 1 {
        lemma_octet_read_back(s[0], tail);
        assert(s.drop_last() =~= Seq::<u8>::empty());
    } else {
        let after = seq!['.'] + last + tail;
        lemma_octets_read_back(s.drop_last(), after);
        let text = dotted(s) + tail;
        assert(text =~= front + after);
        let n = front.len() as int;
        assert(text[n] == after[0]);
        assert(text.skip(n + 1) =~= last + tail);
        lemma_octet_read_back(s.last(), tail);
    }
}

/// The text of an IPv4 address is read as that address.
pub proof fn lemma_ipv4_read_back(ip: Ipv4Addr)
    ensures
        ip_text(ipv4_spelled(ip)) == Some(IpAddr::V4(ip)),
{
    reveal(ipv4_at);
    let s = ip.octets_spec();
    lemma_powers();
    lemma_bytes_read_back(ip.bits as nat, 4);
    lemma_octets_read_back(s, Seq::empty());
    assert(dotted(s) + Seq::<char>::empty() =~= dotted(s));
}

proof fn lemma_port_read_back(port: u16)
    ensures
        port_text(seq![':'] + crate::text::dec(port as nat)) == Some(port),
{
    let digits = crate::text::dec(port as nat);
    let tail = seq![':'] + digits;
    assert(tail.skip(1) =~= digits + Seq::<char>::empty());
    crate::number::lemma_number_read_back(port as nat, Seq::empty(), 0xffff);
}

/// The text of an IPv4 socket address is read as that address.
pub proof fn lemma_ipv4_socket_read_back(addr: SocketAddrV4)
    ensures
        socket_text(socket_spelled(SocketAddr::V4(addr))) == Some(SocketAddr::V4(addr)),
{
    let s = addr.ip.octets_spec();
    let n = dotted(s).len();
    let tail = seq![':'] + crate::text::dec(addr.port as nat);
    let text = socket_spelled(SocketAddr::V4(addr));
    assert(text =~= dotted(s) + tail);
    assert(text.skip(n as int) =~= tail);
    lemma_port_read_back(addr.port);
    assert(ipv4_at(text) == Some((n, addr.ip.bits as nat))) by {
        reveal(ipv4_at);
        lemma_powers();
        lemma_bytes_read_back(addr.ip.bits as nat, 4);
        assert(crate::number::digit_value(tail[0], 10) is None);
        lemma_octets_read_back(s, tail);
    }
}

/// An IPv4 address is read back from the start of a text, whatever follows it
/// that is no digit.
pub proof fn lemma_ipv4_before_tail(ip: Ipv4Addr, tail: Seq<char>)
    requires
        tail.len() > 0 ==> !('0' <= tail[0] && tail[0] <= '9'),
    ensures
        ipv4_at(ipv4_spelled(ip) + tail) == Some((ipv4_spelled(ip).len(), ip.bits as nat)),
        ip_at(ipv4_spelled(ip) + tail) == Some((ipv4_spelled(ip).len(), IpAddr::V4(ip))),
{
    reveal(ipv4_at);
    let s = ip.octets_spec();
    lemma_powers();
    lemma_bytes_read_back(ip.bits as nat, 4);
    lemma_octets_read_back(s, tail);
}

/// An IPv4 address is written with its four bytes in decimal notation, the most
/// significant one first, and dots between them.
pub proof fn lemma_ipv4_spelling(ip: Ipv4Addr, a: u8, b: u8, c: u8, d: u8)
    requires
        ip.bits == a * 0x100_0000 + b * 0x1_0000 + c * 0x100 + d,
    ensures
        ipv4_spelled(ip) == crate::text::dec(a as nat) + seq!['.'] + crate::text::dec(b as nat)
            + seq!['.'] + crate::text::dec(c as nat) + seq!['.'] + crate::text::dec(d as nat),
{
    let s = ip.octets_spec();
    lemma_four_octets(ip.bits as nat, a, b, c, d);
    reveal_with_fuel(dotted, 5);
    assert(s.drop_last() =~= seq![a, b, c]);
    assert(seq![a, b, c].drop_last() =~= seq![a, b]);
    assert(seq![a, b].drop_last() =~= seq![a]);
}

/// The hexadecimal notation of a number is made of digits that spell it.
proof fn lemma_hex_digits(n: nat)
    ensures
        hex(n).len() > 0,
        forall|i: int|
            0 <= i < hex(n).len() ==> crate::number::digit_value(#[trigger] hex(n)[i], 16) is Some,
        crate::number::digits_value(hex(n), 16) == n,
        n < 16 ==> hex(n).len() == 1,
        n < 256 ==> hex(n).len() <= 2,
        n < 4096 ==> hex(n).len() <= 3,
        n < 65536 ==> hex(n).len() <= 4,
    decreases n,
{
    let s = hex(n);
    reveal_with_fuel(crate::number::digits_value, 2);
    if n < 16 {
        assert(s.drop_last() =~= Seq::<char>::empty());
        assert(s.last() == hex_digit(n));
    } else {
        lemma_hex_digits(n / 16);
        assert(s.drop_last() =~= hex(n / 16));
        assert(s.last() == hex_digit(n % 16));
        assert forall|i: int| 0 <= i < s.len() implies crate::number::digit_value(
            #[trigger] s[i],
            16,
        ) is Some by {
            if i < s.len() - 1 {
                assert(s[i] == hex(n / 16)[i]);
            }
        }
    }
}

/// Whether a text goes on after an address: it does not start with anything that
/// could be a part of one.
pub open spec fn ends_address(tail: Seq<char>) -> bool {
    tail.len() > 0 ==> {
        &&& crate::number::digit_value(tail[0], 16) is None
        &&& tail[0] != ':'
        &&& tail[0] != '.'
    }
}

proof fn lemma_group_read_back(g: u16, tail: Seq<char>)
    requires
        tail.len() > 0 ==> crate::number::digit_value(tail[0], 16) is None && tail[0] != '.',
    ensures
        group_at(hex(g as nat) + tail) == Some((hex(g as nat).len(), g as nat)),
        ipv4_at(hex(g as nat) + tail) is None,
        hex(g as nat).len() > 0,
{
    let digits = hex(g as nat);
    let s = digits + tail;
    lemma_hex_digits(g as nat);
    assert forall|i: int| 0 <= i < digits.len() implies crate::number::digit_value(
        #[trigger] s[i],
        16,
    ) is Some by {
        assert(s[i] == digits[i]);
    }
    crate::number::lemma_digit_run_is(s, 16, digits.len());
    assert(s.take(digits.len() as int) =~= digits);
    lemma_no_dot(s, digits.len());
}

proof fn lemma_no_dot(s: Seq<char>, n: nat)
    requires
        n <= s.len(),
        forall|i: int| 0 <= i < n ==> (#[trigger] s[i]) != '.',
        n < s.len() ==> s[n as int] != '.' && crate::number::digit_value(s[n as int], 10) is None,
    ensures
        ipv4_at(s) is None,
{
    reveal(ipv4_at);
    let k = crate::number::digit_run(s, 10);
    crate::number::lemma_digit_run(s, 10);
    assert(k <= n) by {
        if k > n {
            assert(crate::number::digit_value(s[n as int], 10) is Some);
        }
    }
    assert(octets_at(s, 1) == octet_at(s));
    assert(octets_at(s, 2) is None);
    assert(octets_at(s, 3) is None);
}

proof fn lemma_coloned_from_front(s: Seq<u16>)
    requires
        s.len() > 1,
    ensures
        coloned(s) == hex(s[0] as nat) + (seq![':'] + coloned(s.skip(1))),
    decreases s.len(),
{
    let front = s.drop_last();
    let more = s.skip(1);
    if s.len() == 2 {
        assert(front.len() == 1 && front[0] == s[0]);
        assert(more.len() == 1 && more[0] == s[1]);
        reveal_with_fuel(coloned, 2);
        assert(coloned(s) =~= hex(s[0] as nat) + (seq![':'] + coloned(more)));
    } else {
        lemma_coloned_from_front(front);
        assert(front[0] == s[0]);
        assert(more.drop_last() =~= front.skip(1));
        assert(more.last() == s.last());
        assert(coloned(more) =~= coloned(front.skip(1)).push(':') + hex(s.last() as nat));
        assert(coloned(s) =~= hex(s[0] as nat) + (seq![':'] + coloned(more)));
    }
}

#[verifier::opaque]
spec fn groups_are(s: Seq<char>, i: nat, limit: nat, g: Groups) -> bool {
    groups_at(s, i, limit) == g
}

spec fn colon_before(i: nat) -> Seq<char> {
    if i > 0 {
        seq![':']
    } else {
        Seq::empty()
    }
}

#[verifier::rlimit(40)]
proof fn lemma_next_group(g: u16, i: nat, limit: nat, behind: Seq<char>, more: Groups)
    requires
        i < limit,
        behind.len() > 0 ==> crate::number::digit_value(behind[0], 16) is None && behind[0] != '.',
        groups_are(behind, i + 1, limit, more),
    ensures
        groups_are(
            colon_before(i) + (hex(g as nat) + behind),
            i,
            limit,
            Groups {
                taken: colon_before(i).len() + hex(g as nat).len() + more.taken,
                groups: seq![g] + more.groups,
                dotted: more.dotted,
            },
        ),
{
    reveal(groups_are);
    let lead = colon_before(i);
    let first = hex(g as nat);
    let text = lead + (first + behind);
    lemma_group_read_back(g, behind);
    assert(text.skip(lead.len() as int) =~= first + behind);
    assert((first + behind).skip(first.len() as int) =~= behind);
    if i > 0 {
        assert(text[0] == ':');
    }
}

#[verifier::rlimit(40)]
proof fn lemma_groups_go_on(s: Seq<u16>, i: nat, limit: nat, tail: Seq<char>, more: Groups)
    requires
        s.len() > 0,
        i + s.len() <= limit,
        tail.len() > 0 ==> crate::number::digit_value(tail[0], 16) is None && tail[0] != '.',
        groups_are(tail, i + s.len(), limit, more),
    ensures
        groups_are(
            colon_before(i) + (coloned(s) + tail),
            i,
            limit,
            Groups {
                taken: colon_before(i).len() + coloned(s).len() + more.taken,
                groups: s + more.groups,
                dotted: more.dotted,
            },
        ),
    decreases s.len(),
{
    let first = hex(s[0] as nat);
    if s.len() == 1 {
        lemma_next_group(s[0], i, limit, tail, more);
        assert(seq![s[0]] =~= s);
    } else {
        let others = s.skip(1);
        lemma_groups_go_on(others, i + 1, limit, tail, more);
        let behind = colon_before(i + 1) + (coloned(others) + tail);
        lemma_coloned_from_front(s);
        assert(behind[0] == ':');
        assert(coloned(s) + tail =~= first + behind);
        assert(seq![s[0]] + (others + more.groups) =~= s + more.groups);
        let g = Groups {
            taken: 1 + coloned(others).len() + more.taken,
            groups: others + more.groups,
            dotted: more.dotted,
        };
        lemma_next_group(s[0], i, limit, behind, g);
    }
}

proof fn lemma_groups_and_more(s: Seq<u16>, limit: nat, tail: Seq<char>)
    requires
        s.len() > 0,
        s.len() <= limit,
        tail.len() > 0 ==> crate::number::digit_value(tail[0], 16) is None && tail[0] != '.',
    ensures
        ({
            let more = groups_at(tail, s.len(), limit);
            groups_at(coloned(s) + tail, 0, limit) == (Groups {
                taken: coloned(s).len() + more.taken,
                groups: s + more.groups,
                dotted: more.dotted,
            })
        }),
{
    reveal(groups_are);
    lemma_groups_go_on(s, 0, limit, tail, groups_at(tail, s.len(), limit));
    assert(colon_before(0) + (coloned(s) + tail) =~= coloned(s) + tail);
}

proof fn lemma_groups_read_back(s: Seq<u16>, limit: nat, tail: Seq<char>)
    requires
        s.len() > 0,
        s.len() <= limit,
        tail.len() > 0 ==> crate::number::digit_value(tail[0], 16) is None && tail[0] != '.',
        groups_at(tail, s.len(), limit) == (Groups {
            taken: 0,
            groups: Seq::empty(),
            dotted: false,
        }),
    ensures
        groups_at(coloned(s) + tail, 0, limit) == (Groups {
            taken: coloned(s).len(),
            groups: s,
            dotted: false,
        }),
{
    lemma_groups_and_more(s, limit, tail);
    assert(s + Seq::<u16>::empty() =~= s);
}

proof fn lemma_no_group(tail: Seq<char>, i: nat, limit: nat)
    requires
        ends_address(tail) || (tail.len() > 1 && tail[0] == ':' && tail[1] == ':'),
    ensures
        groups_at(tail, i, limit) == (Groups { taken: 0, groups: Seq::empty(), dotted: false }),
{
    if i < limit && !(i > 0 && (tail.len() == 0 || tail[0] != ':')) {
        let sep: nat = if i > 0 {
            1
        } else {
            0
        };
        let t = tail.skip(sep as int);
        if i == 0 {
            assert(t =~= tail);
        } else {
            assert(t[0] == tail[1]);
        }
        assert(t.len() > 0 ==> crate::number::digit_value(t[0], 16) is None && t[0] != '.');
        assert(t.len() > 0 ==> crate::number::digit_value(t[0], 10) is None);
        lemma_no_dot(t, 0);
        assert(crate::number::digit_run(t, 16) == 0);
        assert(group_at(t) is None);
    }
}

/// A run of zeros holds zeros and is followed by none. Of all runs of an
/// address the first one of the longest is left out.
pub proof fn lemma_longest_run(s: Seq<u16>, n: int, j: int)
    requires
        1 <= n <= s.len(),
        0 <= j < n,
    ensures
        ({
            let start = longest_zeros(s, n);
            &&& 0 <= start < n
            &&& zero_run(s, j) <= zero_run(s, start)
            &&& j < start ==> zero_run(s, j) < zero_run(s, start)
        }),
    decreases n,
{
    if n > 1 {
        lemma_longest_run(s, n - 1, 0);
        if j < n - 1 {
            lemma_longest_run(s, n - 1, j);
        }
    }
}

proof fn lemma_zero_run(s: Seq<u16>, i: int)
    requires
        0 <= i <= s.len(),
    ensures
        i + zero_run(s, i) <= s.len(),
        forall|j: int| i <= j < i + zero_run(s, i) ==> (#[trigger] s[j]) == 0,
        i + zero_run(s, i) < s.len() ==> s[i + zero_run(s, i)] != 0,
    decreases s.len() - i,
{
    if i < s.len() && s[i] == 0 {
        lemma_zero_run(s, i + 1);
    }
}

proof fn lemma_plain_ipv6(ip: Ipv6Addr, tail: Seq<char>)
    requires
        ip.mapped_spec() is None,
        ends_address(tail),
    ensures
        ipv6_at(ipv6_spelled(ip) + tail) == Some((ipv6_spelled(ip).len(), ip.bits as nat)),
        ipv4_at(ipv6_spelled(ip) + tail) is None,
{
    let s = ip.segments_spec();
    lemma_powers();
    lemma_segments_read_back(ip.bits as nat, 8);
    lemma_segments_length(ip.bits as nat, 8);
    lemma_longest_run(s, 8, 0);
    let start = longest_zeros(s, 8);
    let len = zero_run(s, start);
    lemma_zero_run(s, start);
    let text = ipv6_spelled(ip) + tail;
    if len > 1 {
        lemma_shortened_ipv6(s, start, len, tail);
    } else {
        lemma_no_group(tail, 8, 8);
        lemma_groups_read_back(s, 8, tail);
        lemma_coloned_from_front(s);
        let behind = seq![':'] + coloned(s.skip(1)) + tail;
        assert(text =~= hex(s[0] as nat) + behind);
        lemma_group_read_back(s[0], behind);
    }
}

#[verifier::rlimit(40)]
proof fn lemma_first_groups(head: Seq<u16>, gap: Seq<char>)
    requires
        head.len() <= 8,
        gap.len() > 1,
        gap[0] == ':' && gap[1] == ':',
    ensures
        groups_at(coloned(head) + gap, 0, 8) == (Groups {
            taken: coloned(head).len(),
            groups: head,
            dotted: false,
        }),
        ipv4_at(coloned(head) + gap) is None,
{
    let all = coloned(head) + gap;
    lemma_no_group(gap, head.len(), 8);
    if head.len() == 0 {
        assert(all =~= gap);
        lemma_no_dot(all, 0);
        assert(head =~= Seq::<u16>::empty());
    } else {
        lemma_groups_read_back(head, 8, gap);
        let behind = if head.len() == 1 {
            gap
        } else {
            seq![':'] + coloned(head.skip(1)) + gap
        };
        if head.len() > 1 {
            lemma_coloned_from_front(head);
        }
        assert(all =~= hex(head[0] as nat) + behind);
        lemma_group_read_back(head[0], behind);
    }
}

proof fn lemma_last_groups(last: Seq<u16>, limit: nat, tail: Seq<char>)
    requires
        last.len() <= limit,
        ends_address(tail),
    ensures
        groups_at(coloned(last) + tail, 0, limit) == (Groups {
            taken: coloned(last).len(),
            groups: last,
            dotted: false,
        }),
{
    let end = coloned(last) + tail;
    lemma_no_group(tail, last.len(), limit);
    if last.len() == 0 {
        assert(end =~= tail);
        assert(last =~= Seq::<u16>::empty());
    } else {
        lemma_groups_read_back(last, limit, tail);
    }
}

#[verifier::rlimit(40)]
proof fn lemma_shortened_ipv6(s: Seq<u16>, start: int, len: nat, tail: Seq<char>)
    requires
        s.len() == 8,
        0 <= start,
        len > 1,
        start + len <= 8,
        forall|j: int| start <= j < start + len ==> (#[trigger] s[j]) == 0,
        ends_address(tail),
    ensures
        ({
            let text = coloned(s.take(start)) + "::"@ + coloned(s.skip(start + len));
            &&& ipv6_at(text + tail) == Some((text.len(), segments_value(s)))
            &&& ipv4_at(text + tail) is None
        }),
{
    reveal_strlit("::");
    let head = s.take(start);
    let last = s.skip(start + len);
    let end = coloned(last) + tail;
    let gap = "::"@ + end;
    let text = coloned(head) + "::"@ + coloned(last);
    let all = text + tail;
    assert(all =~= coloned(head) + gap);
    assert(gap[0] == ':' && gap[1] == ':');
    lemma_first_groups(head, gap);
    lemma_last_groups(last, (7 - start) as nat, tail);
    assert(all.skip(coloned(head).len() as int) =~= gap);
    assert(gap.skip(2) =~= end);
    assert(head + zero_groups((8 - head.len() - last.len()) as nat) + last =~= s);
}

#[verifier::rlimit(40)]
proof fn lemma_mapped_ipv6(ip: Ipv6Addr, v4: Ipv4Addr, tail: Seq<char>)
    requires
        ip.mapped_spec() == Some(v4),
        ends_address(tail),
    ensures
        ipv6_at(ipv6_spelled(ip) + tail) == Some((ipv6_spelled(ip).len(), ip.bits as nat)),
        ipv4_at(ipv6_spelled(ip) + tail) is None,
{
    reveal_strlit("::ffff:");
    let four = ipv4_spelled(v4);
    let all = ipv6_spelled(ip) + tail;
    assert(all[0] == ':' && all[1] == ':');
    lemma_no_group(all, 0, 8);
    lemma_no_dot(all, 0);
    assert(all.skip(0) =~= all);
    let behind = seq![':'] + (four + tail);
    let end = all.skip(2);
    assert(hex(0xffff) =~= seq!['f', 'f', 'f', 'f']) by {
        reveal_with_fuel(hex, 5);
    }
    assert(end =~= hex(0xffff) + behind);
    lemma_group_read_back(0xffff, behind);
    assert(end.skip(0) =~= end);
    assert(end.skip(4) =~= behind);
    assert(behind.skip(1) =~= four + tail);
    assert(tail.len() > 0 ==> crate::number::digit_value(tail[0], 10) is None);
    lemma_ipv4_before_tail(v4, tail);
    let bits = v4.bits as nat;
    let groups = seq![(bits / 65536) as u16, (bits % 65536) as u16];
    assert(groups_at(behind, 1, 7) == (Groups {
        taken: 1 + four.len(),
        groups,
        dotted: true,
    }));
    let found = groups_at(end, 0, 7);
    assert(found.taken == 5 + four.len());
    assert(found.groups =~= seq![0xffffu16, groups[0], groups[1]]);
    let whole = Seq::<u16>::empty() + zero_groups(5) + found.groups;
    assert(whole =~= seq![0u16, 0, 0, 0, 0, 0xffff, groups[0], groups[1]]);
    lemma_mapped_value(whole, groups[0], groups[1]);
}

proof fn lemma_mapped_value(s: Seq<u16>, a: u16, b: u16)
    requires
        s == seq![0u16, 0, 0, 0, 0, 0xffff, a, b],
    ensures
        segments_value(s) == 0xffff_0000_0000 + a * 65536 + b,
{
    reveal_with_fuel(segments_value, 9);
    let s7 = s.drop_last();
    let s6 = s7.drop_last();
    let s5 = s6.drop_last();
    let s4 = s5.drop_last();
    let s3 = s4.drop_last();
    let s2 = s3.drop_last();
    let s1 = s2.drop_last();
    assert(s1.len() == 1 && s1.last() == 0);
    assert(s2.last() == 0 && s3.last() == 0 && s4.last() == 0 && s5.last() == 0);
    assert(s6.last() == 0xffff && s7.last() == a && s.last() == b);
    assert(segments_value(s5) == 0);
}

/// An IPv6 address is read back from the start of a text, whatever follows it
/// that is no part of an address.
pub proof fn lemma_ipv6_before_tail(ip: Ipv6Addr, tail: Seq<char>)
    requires
        ends_address(tail),
    ensures
        ipv6_at(ipv6_spelled(ip) + tail) == Some((ipv6_spelled(ip).len(), ip.bits as nat)),
        ip_at(ipv6_spelled(ip) + tail) == Some((ipv6_spelled(ip).len(), IpAddr::V6(ip))),
{
    match ip.mapped_spec() {
        Some(v4) => {
            lemma_mapped_ipv6(ip, v4, tail);
        },
        None => {
            lemma_plain_ipv6(ip, tail);
        },
    }
}

/// The text of an address of either family is read as that address.
pub proof fn lemma_ip_read_back(ip: IpAddr)
    ensures
        ip_text(ip_spelled(ip)) == Some(ip),
{
    match ip {
        IpAddr::V4(v4) => {
            lemma_ipv4_read_back(v4);
        },
        IpAddr::V6(v6) => {
            let none = Seq::<char>::empty();
            lemma_ipv6_before_tail(v6, none);
            assert(ipv6_spelled(v6) + none =~= ipv6_spelled(v6));
        },
    }
}

/// The text of an IPv6 socket address, with its scope where it has one, is read
/// as that address.
pub proof fn lemma_ipv6_socket_read_back(addr: SocketAddrV6)
    requires
        addr.flowinfo == 0,
    ensures
        socket_text(socket_spelled(SocketAddr::V6(addr))) == Some(SocketAddr::V6(addr)),
{
    reveal_strlit("]:");
    let ip = ipv6_spelled(addr.ip);
    let port = seq![':'] + crate::text::dec(addr.port as nat);
    let close = seq![']'] + port;
    let scope = crate::text::dec(addr.scope_id as nat);
    let end = if addr.scope_id == 0 {
        close
    } else {
        seq!['%'] + (scope + close)
    };
    let text = socket_spelled(SocketAddr::V6(addr));
    assert(text =~= seq!['['] + (ip + end));
    assert(text[0] == '[');
    assert(ipv4_at(text) is None) by {
        lemma_no_dot(text, 0);
    }
    assert(text.skip(1) =~= ip + end);
    assert(ends_address(end));
    lemma_ipv6_before_tail(addr.ip, end);
    assert(text.skip((1 + ip.len()) as int) =~= end);
    lemma_scope_and_port(addr.scope_id, addr.port);
}

#[verifier::rlimit(40)]
proof fn lemma_scope_and_port(scope_id: u32, port: u16)
    ensures
        ({
            let close = seq![']'] + (seq![':'] + crate::text::dec(port as nat));
            let end = if scope_id == 0 {
                close
            } else {
                seq!['%'] + (crate::text::dec(scope_id as nat) + close)
            };
            scope_and_port(end) == Some((scope_id, port))
        }),
{
    let digits = seq![':'] + crate::text::dec(port as nat);
    let close = seq![']'] + digits;
    let scope = crate::text::dec(scope_id as nat);
    lemma_port_read_back(port);
    assert(close.skip(1) =~= digits);
    if scope_id != 0 {
        let end = seq!['%'] + (scope + close);
        crate::number::lemma_number_read_back(scope_id as nat, close, 0xffff_ffff);
        assert(end.skip(1) =~= scope + close);
        let k = scope.len();
        assert(end[(k + 1) as int] == ']');
        assert(end.skip((k + 2) as int) =~= digits);
    }
}

/// What starts with a blank, or with nothing, starts with no address.
pub proof fn lemma_no_address(s: Seq<char>)
    requires
        s.len() == 0 || s[0] == ' ' || s[0] == '\t',
    ensures
        ip_at(s) is None,
        ipv6_at(s) is None,
{
    lemma_no_dot(s, 0);
    lemma_no_group(s, 0, 8);
    assert(s.skip(0) =~= s);
}

/// A number with a zero before it, or with more than three digits, is no part of
/// an IPv4 address.
pub proof fn lemma_no_leading_zeros(s: Seq<char>)
    requires
        s.len() >= 2,
        s[0] == '0',
        '0' <= s[1] && s[1] <= '9',
    ensures
        octet_at(s) is None,
        ipv4_at(s) is None,
{
    reveal(ipv4_at);
    crate::number::lemma_digit_run(s, 10);
    let n = crate::number::digit_run(s, 10);
    if n < 2 {
        assert(crate::number::digit_value(s[n as int], 10) is Some);
    }
    assert(octets_at(s, 1) is None);
    assert(octets_at(s, 2) is None);
    assert(octets_at(s, 3) is None);
}

/// A text that goes on behind an address is no address, and one that goes on
/// behind the port no socket address.
pub proof fn lemma_nothing_behind_address(ip: IpAddr, port: u16, tail: Seq<char>)
    requires
        tail.len() > 0,
        ends_address(tail),
    ensures
        ip_text(ip_spelled(ip) + tail) is None,
        port_text(seq![':'] + crate::text::dec(port as nat) + tail) is None,
{
    assert(crate::number::digit_value(tail[0], 10) is None);
    match ip {
        IpAddr::V4(v4) => {
            lemma_ipv4_before_tail(v4, tail);
        },
        IpAddr::V6(v6) => {
            lemma_ipv6_before_tail(v6, tail);
        },
    }
    let digits = crate::text::dec(port as nat);
    let s = seq![':'] + digits + tail;
    assert(s.skip(1) =~= digits + tail);
    crate::number::lemma_number_read_back(port as nat, tail, 0xffff);
}

/// The last four bytes of an IPv6 address may be written as an IPv4 address.
#[verifier::rlimit(40)]
pub proof fn lemma_ipv6_with_ipv4_at_end(s: Seq<u16>, v4: Ipv4Addr)
    requires
        s.len() == 6,
    ensures
        ({
            let text = coloned(s) + (seq![':'] + ipv4_spelled(v4));
            ipv6_at(text) == Some(
                (text.len(), segments_value(s) * 0x1_0000_0000 + v4.bits as nat),
            )
        }),
{
    let four = ipv4_spelled(v4);
    let tail = seq![':'] + four;
    let none = Seq::<char>::empty();
    let text = coloned(s) + tail;
    lemma_groups_and_more(s, 8, tail);
    assert(tail.skip(1) =~= four + none);
    lemma_ipv4_before_tail(v4, none);
    let bits = v4.bits as nat;
    let pair = seq![(bits / 65536) as u16, (bits % 65536) as u16];
    assert(groups_at(tail, 6, 8) == (Groups { taken: tail.len(), groups: pair, dotted: true }));
    let all = s + pair;
    reveal_with_fuel(segments_value, 3);
    assert(all.drop_last().drop_last() =~= s);
    assert(all.last() == pair[1] && all.drop_last().last() == pair[0]);
}

} // verus!
