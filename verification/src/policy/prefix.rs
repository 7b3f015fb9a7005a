//! Tables of network prefixes.

use ip_network_table_deps_treebitmap::address::Address;
use ip_network_table_deps_treebitmap::IpLookupTable;
use vstd::prelude::*;

verus! {

/// An address as a lookup table sees it: 128 bits, the first of which is the
/// most significant one. An IPv4 address takes the first 32 of them.
#[derive(Debug, Clone, Copy)]
pub struct NetKey {
    pub bits: u128,
}

/// How many addresses share their first `len` bits.
pub open spec fn network_size(len: nat) -> nat {
    crate::net::power(2, (128 - len) as nat)
}

/// The bits of an address with all but the first `len` cleared.
pub open spec fn network(bits: u128, len: nat) -> u128 {
    (bits - bits as nat % network_size(len)) as u128
}

/// Whether only the first `len` bits of an address may be set.
pub open spec fn is_network(bits: u128, len: nat) -> bool {
    bits as nat % network_size(len) == 0
}

/// The four-bit digits of a number, most significant first, `k` of them.
pub open spec fn nibbles_of(n: nat, k: nat) -> Seq<u8>
    decreases k,
{
    if k == 0 {
        Seq::empty()
    } else {
        nibbles_of(n / 16, (k - 1) as nat).push((n % 16) as u8)
    }
}

/// The number that four-bit digits spell, most significant first.
pub open spec fn nibbles_value(s: Seq<u8>) -> nat
    decreases s.len(),
{
    if s.len() == 0 {
        0
    } else {
        nibbles_value(s.drop_last()) * 16 + (s.last() % 16) as nat
    }
}

/// Digits spell a number that fits into them.
proof fn lemma_nibbles_bound(s: Seq<u8>)
    ensures
        nibbles_value(s) < crate::net::power(16, s.len()),
    decreases s.len(),
{
    if s.len() > 0 {
        lemma_nibbles_bound(s.drop_last());
    }
}

/// A number is read back from its digits.
pub proof fn lemma_nibbles_read_back(n: nat, k: nat)
    requires
        n < crate::net::power(16, k),
    ensures
        nibbles_of(n, k).len() == k,
        nibbles_value(nibbles_of(n, k)) == n,
    decreases k,
{
    if k > 0 {
        let p = crate::net::power(16, (k - 1) as nat);
        assert(n / 16 < p) by (nonlinear_arith)
            requires
                n < p * 16,
        ;
        lemma_nibbles_read_back(n / 16, (k - 1) as nat);
        assert(nibbles_of(n, k).drop_last() =~= nibbles_of(n / 16, (k - 1) as nat));
    }
}

fn push_nibbles(buf: &mut Vec<u8>, n: u128, k: u8)
    ensures
        final(buf)@ == old(buf)@ + nibbles_of(n as nat, k as nat),
    decreases k,
{
    if k > 0 {
        push_nibbles(buf, n / 16, k - 1);
        buf.push((n % 16) as u8);
    }
    assert(buf@ =~= old(buf)@ + nibbles_of(n as nat, k as nat));
}

/// How many addresses share their first 32 bits.
pub proof fn lemma_network_size_32()
    ensures
        network_size(32) == 0x1_0000_0000_0000_0000_0000_0000,
        network_size(128) == 1,
{
    lemma_power_128();
    let b = crate::net::power(2, 32);
    let c = crate::net::power(2, 64);
    lemma_power_sum(64, 32);
    assert(c * b == 0x1_0000_0000_0000_0000_0000_0000) by (nonlinear_arith)
        requires
            b == 0x1_0000_0000,
            c == 0x1_0000_0000_0000_0000,
    ;
}

proof fn lemma_network_sizes()
    ensures
        network_size(128) == 1,
        forall|len: nat| len < 128 ==> #[trigger] network_size(len) == 2 * network_size(len + 1),
        forall|len: nat| 1 <= len <= 128 ==> 1 <= #[trigger] network_size(len) <= u128::MAX,
        network_size(0) == u128::MAX + 1,
{
    assert forall|len: nat| len < 128 implies #[trigger] network_size(len) == 2 * network_size(
        len + 1,
    ) by {
        assert((128 - len - 1) as nat == (128 - (len + 1)) as nat);
    }
    lemma_power_128();
    assert forall|len: nat| 1 <= len <= 128 implies 1 <= #[trigger] network_size(len)
        <= u128::MAX by {
        lemma_power_of_two_bounds((128 - len) as nat);
    }
}

proof fn lemma_power_of_two_bounds(k: nat)
    requires
        k <= 127,
    ensures
        1 <= crate::net::power(2, k) <= u128::MAX,
{
    lemma_power_of_two_grows(k, 127);
    lemma_power_128();
}

proof fn lemma_power_sum(a: nat, b: nat)
    ensures
        crate::net::power(2, a + b) == crate::net::power(2, a) * crate::net::power(2, b),
    decreases b,
{
    let x = crate::net::power(2, a);
    if b == 0 {
        assert(x * 1 == x);
    } else {
        lemma_power_sum(a, (b - 1) as nat);
        let y = crate::net::power(2, (b - 1) as nat);
        assert(x * y * 2 == x * (y * 2)) by (nonlinear_arith);
        assert((a + b - 1) as nat == a + (b - 1) as nat);
    }
}

proof fn lemma_power_128()
    ensures
        crate::net::power(2, 128) == u128::MAX + 1,
        crate::net::power(2, 127) <= u128::MAX,
        crate::net::power(2, 64) == 0x1_0000_0000_0000_0000,
        crate::net::power(2, 32) == 0x1_0000_0000,
{
    assert(crate::net::power(2, 16) == 0x1_0000) by {
        reveal_with_fuel(crate::net::power, 17);
    }
    let a = crate::net::power(2, 16);
    let b = crate::net::power(2, 32);
    let c = crate::net::power(2, 64);
    lemma_power_sum(16, 16);
    assert(a * a == 0x1_0000_0000) by (nonlinear_arith)
        requires
            a == 0x1_0000,
    ;
    lemma_power_sum(32, 32);
    assert(b * b == 0x1_0000_0000_0000_0000) by (nonlinear_arith)
        requires
            b == 0x1_0000_0000,
    ;
    lemma_power_sum(64, 64);
    assert(c * c == u128::MAX + 1) by (nonlinear_arith)
        requires
            c == 0x1_0000_0000_0000_0000,
    ;
    assert(crate::net::power(2, 128) == crate::net::power(2, 127) * 2);
}

proof fn lemma_power_of_two_grows(k: nat, m: nat)
    requires
        k <= m,
    ensures
        1 <= crate::net::power(2, k) <= crate::net::power(2, m),
    decreases m,
{
    if k < m {
        lemma_power_of_two_grows(k, (m - 1) as nat);
    } else if k > 0 {
        lemma_power_of_two_grows((k - 1) as nat, (m - 1) as nat);
    }
}

/// Clears all but the first `len` bits.
pub fn network_of(bits: u128, len: u8) -> (r: u128)
    requires
        len <= 128,
    ensures
        r == network(bits, len as nat),
        r == bits <==> is_network(bits, len as nat),
{
    proof {
        lemma_network_sizes();
    }
    if len == 0 {
        assert(bits as nat % network_size(0) == bits);
        return 0;
    }
    let mut size: u128 = 1;
    let mut i: u8 = 128;
    while i > len
        invariant
            1 <= len <= i <= 128,
            size == network_size(i as nat),
            forall|n: nat| n < 128 ==> #[trigger] network_size(n) == 2 * network_size(n + 1),
            forall|n: nat| 1 <= n <= 128 ==> 1 <= #[trigger] network_size(n) <= u128::MAX,
        decreases i,
    {
        i = i - 1;
        assert(network_size(i as nat) == 2 * network_size((i + 1) as nat));
        size = size * 2;
    }
    assert(bits % size <= bits) by (nonlinear_arith)
        requires
            size > 0,
    ;
    bits - bits % size
}

impl Address for NetKey {
    type Nibbles = Vec<u8>;

    /// The 32 four-bit digits of the address.
    fn nibbles(self) -> (r: Vec<u8>)
        ensures
            r@ == nibbles_of(self.bits as nat, 32),
    {
        let mut r: Vec<u8> = Vec::new();
        push_nibbles(&mut r, self.bits, 32);
        assert(r@ =~= nibbles_of(self.bits as nat, 32));
        r
    }

    /// The address that the first 32 four-bit digits spell.
    fn from_nibbles(nibbles: &[u8]) -> (r: NetKey)
        ensures
            nibbles@.len() <= 32 ==> r.bits == nibbles_value(nibbles@),
    {
        let mut bits: u128 = 0;
        let mut i: usize = 0;
        proof {
            assert(crate::net::power(16, 32) == u128::MAX + 1) by {
                reveal_with_fuel(crate::net::power, 33);
            }
        }
        while i < nibbles.len() && i < 32
            invariant
                i <= nibbles@.len(),
                i <= 32,
                bits == nibbles_value(nibbles@.take(i as int)),
                crate::net::power(16, 32) == u128::MAX + 1,
            decreases 32 - i,
        {
            proof {
                let next = nibbles@.take(i + 1);
                lemma_nibbles_bound(next);
                assert(next.drop_last() =~= nibbles@.take(i as int));
                lemma_power_grows(16, next.len(), 32);
            }
            bits = bits * 16 + ((nibbles[i] % 16) as u128);
            i = i + 1;
        }
        assert(nibbles@.len() <= 32 ==> nibbles@.take(i as int) =~= nibbles@);
        NetKey { bits }
    }

    /// The address with all but the first `masklen` bits cleared.
    fn mask(self, masklen: u32) -> (r: NetKey)
        ensures
            masklen <= 128 ==> r.bits == network(self.bits, masklen as nat),
    {
        if masklen <= 128 {
            NetKey { bits: network_of(self.bits, masklen as u8) }
        } else {
            self
        }
    }
}

proof fn lemma_power_grows(base: nat, i: nat, j: nat)
    requires
        i <= j,
        base >= 1,
    ensures
        crate::net::power(base, i) <= crate::net::power(base, j),
    decreases j - i,
{
    if i < j {
        lemma_power_grows(base, i, (j - 1) as nat);
        let p = crate::net::power(base, (j - 1) as nat);
        assert(p <= p * base) by (nonlinear_arith)
            requires
                base >= 1,
        ;
    }
}

/// `IpLookupTable` of the crate `ip_network_table-deps-treebitmap`.
#[verifier::external_type_specification]
#[verifier::external_body]
#[verifier::reject_recursive_types(A)]
#[verifier::reject_recursive_types(T)]
pub struct ExIpLookupTable<A, T>(IpLookupTable<A, T>);

/// The prefixes in a table, each with its number.
pub uninterp spec fn prefixes(table: IpLookupTable<NetKey, usize>) -> Map<(u128, nat), usize>;

/// The numbers of the prefixes shorter than `n` bits that an address has, the
/// shortest prefix first.
pub open spec fn matching(entries: Map<(u128, nat), usize>, bits: u128, n: nat) -> Seq<usize>
    decreases n,
{
    if n == 0 {
        Seq::empty()
    } else {
        let len = (n - 1) as nat;
        let key = (network(bits, len), len);
        let shorter = matching(entries, bits, len);
        if entries.contains_key(key) {
            shorter.push(entries[key])
        } else {
            shorter
        }
    }
}

/// `IpLookupTable::new` makes a table without any prefix.
#[verifier::external_body]
pub(crate) fn new_table() -> (r: IpLookupTable<NetKey, usize>)
    ensures
        prefixes(r).dom() == Set::<(u128, nat)>::empty(),
{
    IpLookupTable::new()
}

/// `IpLookupTable::exact_match` finds the value of exactly the given prefix. It
/// panics where the address has a bit set behind the prefix.
#[verifier::external_body]
pub(crate) fn table_get(
    table: &IpLookupTable<NetKey, usize>,
    key: NetKey,
    len: u8,
) -> (r: Option<usize>)
    requires
        len <= 128,
        is_network(key.bits, len as nat),
    ensures
        match r {
            Some(value) => prefixes(*table).contains_key((key.bits, len as nat))
                && prefixes(*table)[(key.bits, len as nat)] == value,
            None => !prefixes(*table).contains_key((key.bits, len as nat)),
        },
{
    table.exact_match(key, len as u32).copied()
}

/// `IpLookupTable::insert` gives the prefix a value in place of any that it
/// had, and leaves the other prefixes alone. It panics where the address has a
/// bit set behind the prefix.
#[verifier::external_body]
pub(crate) fn table_insert(
    table: &mut IpLookupTable<NetKey, usize>,
    key: NetKey,
    len: u8,
    value: usize,
)
    requires
        len <= 128,
        is_network(key.bits, len as nat),
    ensures
        prefixes(*final(table)) == prefixes(*old(table)).insert((key.bits, len as nat), value),
{
    table.insert(key, len as u32, value);
}

/// `IpLookupTable::matches` walks over the prefixes that an address has, from
/// the shortest to the longest, with their values.
#[verifier::external_body]
pub(crate) fn table_matches(table: &IpLookupTable<NetKey, usize>, key: NetKey) -> (r: Vec<usize>)
    ensures
        r@ == matching(prefixes(*table), key.bits, 129),
{
    table.matches(key).map(|(_, _, value)| *value).collect()
}

proof fn lemma_powers_of_two(k: nat)
    ensures
        crate::net::power(2, k) == vstd::arithmetic::power2::pow2(k),
    decreases k,
{
    if k == 0 {
        vstd::arithmetic::power2::lemma2_to64();
    } else {
        lemma_powers_of_two((k - 1) as nat);
        vstd::arithmetic::power2::lemma_pow2_unfold(k);
    }
}

/// An address lies in a network exactly where both have the same first bits, as
/// many as the prefix is long.
pub proof fn lemma_same_first_bits(bits: u128, net: u128, len: nat)
    requires
        len <= 128,
        is_network(net, len),
    ensures
        ({
            let rest = vstd::arithmetic::power2::pow2((128 - len) as nat);
            &&& rest > 0
            &&& network(bits, len) == net <==> bits as nat / rest == net as nat / rest
        }),
{
    let rest = vstd::arithmetic::power2::pow2((128 - len) as nat);
    lemma_powers_of_two((128 - len) as nat);
    vstd::arithmetic::power2::lemma_pow2_pos((128 - len) as nat);
    let b = bits as int;
    let n = net as int;
    let d = rest as int;
    vstd::arithmetic::div_mod::lemma_fundamental_div_mod(b, d);
    vstd::arithmetic::div_mod::lemma_fundamental_div_mod(n, d);
    vstd::arithmetic::div_mod::lemma_mod_bound(b, d);
    let q = b / d;
    let r = n / d;
    assert(n == d * r);
    assert(d * q >= 0) by (nonlinear_arith)
        requires
            d * q == b - b % d,
            b % d <= b,
    ;
    assert(network(bits, len) == d * q);
    if d * q == d * r {
        assert(q == r) by (nonlinear_arith)
            requires
                d * q == d * r,
                d > 0,
        ;
    }
}

/// A network has no bit set behind its prefix, and an address of the network
/// has the same network.
pub proof fn lemma_network_of_address(bits: u128, len: nat)
    requires
        len <= 128,
    ensures
        is_network(network(bits, len), len),
        network(bits, len) <= bits,
        network(bits, 128) == bits,
        network(bits, 0) == 0,
{
    lemma_network_sizes();
    lemma_powers_of_two((128 - len) as nat);
    vstd::arithmetic::power2::lemma_pow2_pos((128 - len) as nat);
    let b = bits as int;
    let d = network_size(len) as int;
    vstd::arithmetic::div_mod::lemma_fundamental_div_mod(b, d);
    vstd::arithmetic::div_mod::lemma_mod_bound(b, d);
    let q = b / d;
    assert(d * q >= 0) by (nonlinear_arith)
        requires
            d > 0,
            b >= 0,
            q == b / d,
    ;
    assert(network(bits, len) == d * q);
    vstd::arithmetic::div_mod::lemma_mod_multiples_basic(q, d);
    assert(q * d == d * q) by (nonlinear_arith);
    vstd::arithmetic::div_mod::lemma_small_mod(bits as nat, network_size(0));
}

/// Two IPv4 addresses have the same network of a prefix exactly where their own
/// first bits are the same.
pub proof fn lemma_same_first_bits_of_ipv4(a: u32, b: u32, len: nat)
    requires
        len <= 32,
    ensures
        ({
            let rest = vstd::arithmetic::power2::pow2((32 - len) as nat);
            &&& rest > 0
            &&& network((a * 0x1_0000_0000_0000_0000_0000_0000) as u128, len) == network(
                (b * 0x1_0000_0000_0000_0000_0000_0000) as u128,
                len,
            ) <==> a as nat / rest == b as nat / rest
        }),
{
    let x = (a * 0x1_0000_0000_0000_0000_0000_0000) as u128;
    let y = (b * 0x1_0000_0000_0000_0000_0000_0000) as u128;
    lemma_first_bits_of_ipv4(a, len);
    lemma_first_bits_of_ipv4(b, len);
    lemma_network_of_address(y, len);
    lemma_same_first_bits(x, network(y, len), len);
    lemma_same_first_bits(y, network(y, len), len);
}

proof fn lemma_first_bits_of_ipv4(a: u32, len: nat)
    requires
        len <= 32,
    ensures
        ({
            let rest = vstd::arithmetic::power2::pow2((32 - len) as nat);
            let x = (a * 0x1_0000_0000_0000_0000_0000_0000) as u128;
            &&& rest > 0
            &&& x as nat / vstd::arithmetic::power2::pow2((128 - len) as nat) == a as nat / rest
        }),
{
    let m: int = 0x1_0000_0000_0000_0000_0000_0000;
    let rest = vstd::arithmetic::power2::pow2((32 - len) as nat) as int;
    let whole = vstd::arithmetic::power2::pow2((128 - len) as nat) as int;
    vstd::arithmetic::power2::lemma_pow2_pos((32 - len) as nat);
    lemma_powers_of_two(96);
    lemma_network_size_32();
    assert(vstd::arithmetic::power2::pow2(96) == m);
    vstd::arithmetic::power2::lemma_pow2_adds(96, (32 - len) as nat);
    assert((96 + (32 - len)) as nat == (128 - len) as nat);
    assert(whole == m * rest);
    assert(a * m <= u128::MAX) by (nonlinear_arith)
        requires
            a <= u32::MAX,
            m == 0x1_0000_0000_0000_0000_0000_0000,
    ;
    vstd::arithmetic::div_mod::lemma_div_denominator(a * m, m, rest);
    assert((a * m) / m == a as int) by (nonlinear_arith)
        requires
            m > 0,
    ;
}

/// An IPv4 address is a network of a prefix exactly where its own bits behind
/// the prefix are not set.
pub proof fn lemma_network_of_ipv4(a: u32, len: nat)
    requires
        len <= 32,
    ensures
        is_network((a * 0x1_0000_0000_0000_0000_0000_0000) as u128, len) <==> a as nat
            % vstd::arithmetic::power2::pow2((32 - len) as nat) == 0,
{
    let m: int = 0x1_0000_0000_0000_0000_0000_0000;
    let rest = vstd::arithmetic::power2::pow2((32 - len) as nat) as int;
    vstd::arithmetic::power2::lemma_pow2_pos((32 - len) as nat);
    lemma_powers_of_two(96);
    lemma_powers_of_two((128 - len) as nat);
    lemma_network_size_32();
    assert(vstd::arithmetic::power2::pow2(96) == m);
    vstd::arithmetic::power2::lemma_pow2_adds(96, (32 - len) as nat);
    assert((96 + (32 - len)) as nat == (128 - len) as nat);
    assert(network_size(len) == m * rest);
    assert(a * m <= u128::MAX) by (nonlinear_arith)
        requires
            a <= u32::MAX,
            m == 0x1_0000_0000_0000_0000_0000_0000,
    ;
    vstd::arithmetic::div_mod::lemma_truncate_middle(a as int, m, rest);
    assert((m * a as int) % (m * rest) == m * (a as int % rest));
    assert(a * m == m * a) by (nonlinear_arith);
    let r = a as int % rest;
    assert(m * r == 0 <==> r == 0) by (nonlinear_arith)
        requires
            m > 0,
    ;
}

/// An address is a network of a prefix exactly where its bits behind the prefix
/// are not set.
pub proof fn lemma_network_bits(bits: u128, len: nat)
    requires
        len <= 128,
    ensures
        is_network(bits, len) <==> bits as nat % vstd::arithmetic::power2::pow2((128 - len) as nat)
            == 0,
{
    lemma_powers_of_two((128 - len) as nat);
}

} // verus!
