//! Which proxy servers a connection may use.

pub mod action;
pub mod capabilities;
pub mod parser;
pub mod policy;
pub mod prefix;
pub mod rules;
pub mod select;

pub use self::action::{Action, ActionType};

use self::parser::{key_of, line_no_ending, Filter, Rule};
use self::rules::{DstDomainRuleSet, IpRuleSet, ListenPortRuleSet, RuleSet};
use crate::lines::lines_of;
use crate::net::{canonical, IpAddr};
use vstd::prelude::*;

verus! {

/// What is known of a connection.
#[derive(Debug, Clone, Copy)]
pub struct RequestFeatures<'a> {
    pub listen_port: Option<u16>,
    pub dst_ip: Option<IpAddr>,
    pub dst_domain: Option<&'a str>,
}

impl<'a> Default for RequestFeatures<'a> {
    /// Nothing is known.
    fn default() -> (r: RequestFeatures<'a>)
        ensures
            r.listen_port is None,
            r.dst_ip is None,
            r.dst_domain is None,
    {
        RequestFeatures { listen_port: None, dst_ip: None, dst_domain: None }
    }
}

/// Why a policy cannot be loaded: the line, counted from zero, and what is wrong
/// with it.
#[derive(Debug, Clone, Copy, PartialEq, Eq, Structural)]
pub enum PolicyError {
    /// The line is not UTF-8.
    Encoding { line: usize },
    /// The line is no rule.
    Syntax { line: usize },
}

/// The rules by which actions are found.
pub struct Policy {
    pub default_action: Action,
    pub listen_port_ruleset: ListenPortRuleSet,
    pub dst_ipv4_ruleset: IpRuleSet,
    pub dst_ipv6_ruleset: IpRuleSet,
    pub dst_domain_ruleset: DstDomainRuleSet,
}

/// The model of a policy.
pub struct PolicyModel {
    pub default_action: action::ActionModel,
    pub listen_port: Seq<(u16, action::ActionModel)>,
    pub dst_ipv4: Seq<((u128, nat), action::ActionModel)>,
    pub dst_ipv6: Seq<((u128, nat), action::ActionModel)>,
    pub dst_domain: Seq<(Seq<char>, action::ActionModel)>,
}

impl View for Policy {
    type V = PolicyModel;

    open spec fn view(&self) -> PolicyModel {
        PolicyModel {
            default_action: self.default_action@,
            listen_port: self.listen_port_ruleset@,
            dst_ipv4: self.dst_ipv4_ruleset@,
            dst_ipv6: self.dst_ipv6_ruleset@,
            dst_domain: self.dst_domain_ruleset@,
        }
    }
}

/// The policy without any rule.
pub open spec fn no_rules() -> PolicyModel {
    PolicyModel {
        default_action: action::no_requirement(),
        listen_port: Seq::empty(),
        dst_ipv4: Seq::empty(),
        dst_ipv6: Seq::empty(),
        dst_domain: Seq::empty(),
    }
}

/// The policy with one more rule.
pub open spec fn rule_added(p: PolicyModel, rule: parser::RuleModel) -> PolicyModel {
    match rule.filter {
        parser::FilterModel::Default => PolicyModel {
            default_action: action::combine(p.default_action, rule.action),
            ..p
        },
        parser::FilterModel::ListenPort(port) => PolicyModel {
            listen_port: rules::added(p.listen_port, port, rule.action),
            ..p
        },
        parser::FilterModel::Sni(name) => PolicyModel {
            dst_domain: rules::added(p.dst_domain, name, rule.action),
            ..p
        },
        parser::FilterModel::DstIp(ip, len) => {
            let key = (parser::address_key(ip).0, len as nat);
            match ip {
                IpAddr::V4(_) => PolicyModel {
                    dst_ipv4: rules::added(p.dst_ipv4, key, rule.action),
                    ..p
                },
                IpAddr::V6(_) => PolicyModel {
                    dst_ipv6: rules::added(p.dst_ipv6, key, rule.action),
                    ..p
                },
            }
        },
    }
}

/// The policy that some lines make, each of them adding its rule.
pub open spec fn load_result(lines: Seq<Option<Seq<char>>>) -> Result<PolicyModel, PolicyError>
    decreases lines.len(),
{
    if lines.len() == 0 {
        Ok(no_rules())
    } else {
        let line = (lines.len() - 1) as usize;
        match load_result(lines.drop_last()) {
            Err(e) => Err(e),
            Ok(p) => match lines.last() {
                None => Err(PolicyError::Encoding { line }),
                Some(text) => match parser::line_result(text) {
                    None => Err(PolicyError::Syntax { line }),
                    Some(None) => Ok(p),
                    Some(Some(rule)) => Ok(rule_added(p, rule)),
                },
            },
        }
    }
}

/// How many rules a policy has besides the default one.
pub open spec fn rule_total(p: PolicyModel) -> nat {
    rules::total_size(p.listen_port) + rules::total_size(p.dst_domain) + rules::total_size(
        p.dst_ipv4,
    ) + rules::total_size(p.dst_ipv6)
}

/// The actions of the rules on the port that apply to a connection.
pub open spec fn port_actions(
    p: PolicyModel,
    port: Option<u16>,
) -> Seq<action::ActionModel> {
    match port {
        Some(port) => rules::lookup_all(p.listen_port, seq![port]),
        None => Seq::empty(),
    }
}

/// The actions of the rules on the address that apply to a connection, those of
/// the largest network first.
pub open spec fn ip_actions(p: PolicyModel, ip: Option<IpAddr>) -> Seq<action::ActionModel> {
    match ip {
        Some(ip) => {
            let meant = crate::net::canonical_spec(ip);
            let around = rules::networks_around(parser::address_key(meant).0, 129);
            match meant {
                IpAddr::V4(_) => rules::lookup_all(p.dst_ipv4, around),
                IpAddr::V6(_) => rules::lookup_all(p.dst_ipv6, around),
            }
        },
        None => Seq::empty(),
    }
}

/// The actions of the rules on the domain that apply to a connection, those of
/// the root first.
pub open spec fn domain_actions(
    p: PolicyModel,
    name: Option<Seq<char>>,
) -> Seq<action::ActionModel> {
    match name {
        Some(name) => rules::lookup_all(p.dst_domain, rules::domain_keys(name)),
        None => Seq::empty(),
    }
}

/// The action for a connection: that of the rules on the port, those on the
/// address and those on the domain are taken into account in turn.
pub open spec fn action_for(
    p: PolicyModel,
    port: Option<u16>,
    ip: Option<IpAddr>,
    name: Option<Seq<char>>,
) -> action::ActionModel {
    action::combine_all(
        p.default_action,
        port_actions(p, port) + ip_actions(p, ip) + domain_actions(p, name),
    )
}

/// The view of a name that may be missing.
pub open spec fn name_view(name: Option<&str>) -> Option<Seq<char>> {
    match name {
        Some(s) => Some(s@),
        None => None,
    }
}

proof fn lemma_whole_address_is_network(ip: IpAddr)
    ensures
        parser::is_ip_network(ip, parser::address_key(ip).1),
{
    match ip {
        IpAddr::V4(v4) => {
            prefix::lemma_network_size_32();
            assert(v4.bits * 0x1_0000_0000_0000_0000_0000_0000 <= u128::MAX) by (nonlinear_arith)
                requires
                    v4.bits <= u32::MAX,
            ;
            assert((v4.bits * 0x1_0000_0000_0000_0000_0000_0000)
                % 0x1_0000_0000_0000_0000_0000_0000 == 0) by (nonlinear_arith);
        },
        IpAddr::V6(v6) => {
            assert(prefix::network_size(128) == 1);
        },
    }
}

/// What a line says of a network holds of one.
pub proof fn lemma_rules_are_sound(text: Seq<char>)
    ensures
        parser::line_result(text) matches Some(Some(rule)) ==> parser::is_filter(rule.filter),
{
    reveal(parser::rule_at);
    let s = text.skip(parser::blank_run(text) as int);
    if let Some((n, parser::FilterModel::DstIp(ip, len))) = parser::filter_at(s) {
        lemma_whole_address_is_network(ip);
    }
}

fn apply_all(action: Action, others: Vec<&Action>) -> (r: Action)
    ensures
        r@ == action::combine_all(action@, rules::models(others@)),
{
    let mut r = action;
    let n = others.len();
    let mut i: usize = 0;
    let ghost all = rules::models(others@);
    assert(all.take(0) =~= Seq::<action::ActionModel>::empty());
    while i < n
        invariant
            n == others@.len(),
            i <= n,
            all == rules::models(others@),
            r@ == action::combine_all(action@, all.take(i as int)),
        decreases n - i,
    {
        r.extend(others[i].clone());
        proof {
            assert(all.take(i + 1).drop_last() =~= all.take(i as int));
            assert(all.take(i + 1).last() == others@[i as int]@);
        }
        i = i + 1;
    }
    assert(all.take(n as int) =~= all);
    r
}

impl Default for Policy {
    /// No rule at all.
    fn default() -> (r: Policy)
        ensures
            r@ == no_rules(),
    {
        Policy {
            default_action: Action::default(),
            listen_port_ruleset: RuleSet::new(),
            dst_ipv4_ruleset: IpRuleSet::new(),
            dst_ipv6_ruleset: IpRuleSet::new(),
            dst_domain_ruleset: RuleSet::new(),
        }
    }
}

impl Policy {
    /// Loads a policy from its text, one rule a line.
    pub fn load(data: &[u8]) -> (r: Result<Policy, PolicyError>)
        ensures
            match load_result(crate::lines::text_lines(data@)) {
                Ok(p) => r matches Ok(policy) && policy@ == p,
                Err(e) => r == Err::<Policy, PolicyError>(e),
            },
    {
        let lines = lines_of(data);
        let n = lines.len();
        let mut policy = Policy::default();
        let mut i: usize = 0;
        let ghost texts = crate::lines::line_views(lines@);
        assert(texts.take(0) =~= Seq::<Option<Seq<char>>>::empty());
        while i < n
            invariant
                n == lines@.len(),
                i <= n,
                texts == crate::lines::line_views(lines@),
                texts == crate::lines::text_lines(data@),
                load_result(texts.take(i as int)) == Ok::<PolicyModel, PolicyError>(policy@),
            decreases n - i,
        {
            proof {
                assert(texts.take(i + 1).drop_last() =~= texts.take(i as int));
                assert(texts.take(i + 1).last() == texts[i as int]);
            }
            match lines[i] {
                None => {
                    proof {
                        lemma_first_error(texts, i + 1);
                    }
                    return Err(PolicyError::Encoding { line: i });
                },
                Some(text) => {
                    proof {
                        lemma_rules_are_sound(text@);
                    }
                    match line_no_ending(text) {
                        Err(_) => {
                            proof {
                                lemma_first_error(texts, i + 1);
                            }
                            return Err(PolicyError::Syntax { line: i });
                        },
                        Ok((_, None)) => {},
                        Ok((_, Some(rule))) => {
                            policy.add_rule(rule);
                        },
                    }
                },
            }
            i = i + 1;
        }
        assert(texts.take(n as int) =~= texts);
        Ok(policy)
    }

    /// Adds a rule.
    pub fn add_rule(&mut self, rule: Rule)
        requires
            parser::is_filter(rule.filter@),
        ensures
            final(self)@ == rule_added(old(self)@, rule@),
    {
        let Rule { filter, action } = rule;
        match filter {
            Filter::Default => self.default_action.extend(action),
            Filter::ListenPort(port) => self.listen_port_ruleset.add(port, action),
            Filter::Sni(name) => self.dst_domain_ruleset.add(name, action),
            Filter::DstIp((ip, len)) => {
                let (bits, _) = key_of(ip);
                match ip {
                    IpAddr::V4(_) => self.dst_ipv4_ruleset.add(bits, len, action),
                    IpAddr::V6(_) => self.dst_ipv6_ruleset.add(bits, len, action),
                }
            },
        }
    }

    /// How many rules there are besides the default one; no more than the
    /// largest number.
    pub fn rule_count(&self) -> (n: usize)
        ensures
            n == if rule_total(self@) <= usize::MAX {
                rule_total(self@) as int
            } else {
                usize::MAX as int
            },
    {
        let a = self.listen_port_ruleset.rule_count();
        let b = self.dst_domain_ruleset.rule_count();
        let c = self.dst_ipv4_ruleset.rule_count();
        let d = self.dst_ipv6_ruleset.rule_count();
        a.saturating_add(b).saturating_add(c).saturating_add(d)
    }

    /// The action for a connection.
    pub fn matches(&self, features: &RequestFeatures) -> (r: Action)
        ensures
            r@ == action_for(
                self@,
                features.listen_port,
                features.dst_ip,
                name_view(features.dst_domain),
            ),
    {
        let mut action = self.default_action.clone();
        let ghost first = action@;
        let ghost by_port = port_actions(self@, features.listen_port);
        let ghost by_ip = ip_actions(self@, features.dst_ip);
        let ghost by_domain = domain_actions(self@, name_view(features.dst_domain));
        let mut found: Vec<&Action> = Vec::new();
        assert(rules::models(found@) =~= Seq::<action::ActionModel>::empty());
        if let Some(port) = features.listen_port {
            proof {
                reveal_with_fuel(rules::lookup_all, 2);
                assert(seq![port].drop_last() =~= Seq::<u16>::empty());
            }
            if let Some(a) = self.listen_port_ruleset.get(&port) {
                found.push(a);
            }
        }
        assert(rules::models(found@) =~= by_port);
        action = apply_all(action, found);
        if let Some(ip) = features.dst_ip {
            let meant = canonical(ip);
            let (bits, _) = key_of(meant);
            let found = match meant {
                IpAddr::V4(_) => self.dst_ipv4_ruleset.get(bits),
                IpAddr::V6(_) => self.dst_ipv6_ruleset.get(bits),
            };
            action = apply_all(action, found);
        }
        assert(action@ == action::combine_all(action::combine_all(first, by_port), by_ip));
        if let Some(name) = features.dst_domain {
            let found = self.dst_domain_ruleset.get_recursive(name);
            action = apply_all(action, found);
        }
        proof {
            action::lemma_combine_all_append(first, by_port, by_ip);
            action::lemma_combine_all_append(first, by_port + by_ip, by_domain);
        }
        action
    }
}

/// A line that cannot be read is the end: what follows does not matter.
pub proof fn lemma_first_error(lines: Seq<Option<Seq<char>>>, n: int)
    requires
        0 <= n <= lines.len(),
        load_result(lines.take(n)) is Err,
    ensures
        load_result(lines) == load_result(lines.take(n)),
    decreases lines.len() - n,
{
    if n < lines.len() {
        assert(lines.take(n + 1).drop_last() =~= lines.take(n));
        lemma_first_error(lines, n + 1);
    } else {
        assert(lines.take(n) =~= lines);
    }
}

/// An IPv6 address that stands for an IPv4 address is treated like the latter.
pub proof fn lemma_mapped_address_is_treated_alike(
    p: PolicyModel,
    port: Option<u16>,
    v4: crate::net::Ipv4Addr,
    v6: crate::net::Ipv6Addr,
    name: Option<Seq<char>>,
)
    requires
        v6.bits == 0xffff_0000_0000 + v4.bits,
    ensures
        action_for(p, port, Some(IpAddr::V6(v6)), name) == action_for(
            p,
            port,
            Some(IpAddr::V4(v4)),
            name,
        ),
{
    crate::net::lemma_mapped_is_canonical(v4, v6);
}

/// No rule that applies to a connection has a higher priority than the action
/// for it, nor has the default rule.
pub proof fn lemma_highest_priority_holds(
    p: PolicyModel,
    port: Option<u16>,
    ip: Option<IpAddr>,
    name: Option<Seq<char>>,
    a: action::ActionModel,
)
    requires
        a == p.default_action || port_actions(p, port).contains(a) || ip_actions(p, ip).contains(a)
            || domain_actions(p, name).contains(a),
    ensures
        a.priority <= action_for(p, port, ip, name).priority,
{
    let x = port_actions(p, port);
    let y = ip_actions(p, ip);
    let z = domain_actions(p, name);
    let all = x + y + z;
    action::lemma_combine_all_priority(p.default_action, all);
    if x.contains(a) {
        let i = choose|i: int| 0 <= i < x.len() && x[i] == a;
        assert(all[i] == a);
    } else if y.contains(a) {
        let i = choose|i: int| 0 <= i < y.len() && y[i] == a;
        assert(all[x.len() + i] == a);
    } else if z.contains(a) {
        let i = choose|i: int| 0 <= i < z.len() && z[i] == a;
        assert(all[x.len() + y.len() + i] == a);
    }
}

/// A connection of which nothing is known gets the default action.
pub proof fn lemma_default_action(p: PolicyModel)
    ensures
        action_for(p, None, None, None) == p.default_action,
{
    assert(Seq::<action::ActionModel>::empty() + Seq::<action::ActionModel>::empty() + Seq::<
        action::ActionModel,
    >::empty() =~= Seq::<action::ActionModel>::empty());
}

/// A rule on a listening port says nothing of connections on other ports.
pub proof fn lemma_port_rule_is_for_its_port(
    p: PolicyModel,
    port: u16,
    a: action::ActionModel,
    other: Option<u16>,
    ip: Option<IpAddr>,
    name: Option<Seq<char>>,
)
    requires
        rules::distinct_keys(p.listen_port),
        other != Some(port),
    ensures
        ({
            let rule = parser::RuleModel { filter: parser::FilterModel::ListenPort(port), action: a };
            action_for(rule_added(p, rule), other, ip, name) == action_for(p, other, ip, name)
        }),
{
    if let Some(q) = other {
        rules::lemma_lookup_after_add(p.listen_port, port, a, q);
        let keys = seq![q];
        assert(keys.drop_last() =~= Seq::<u16>::empty());
        reveal_with_fuel(rules::lookup_all, 2);
    }
}

proof fn lemma_one_port(entries: Seq<(u16, action::ActionModel)>, port: u16)
    ensures
        rules::lookup_all(entries, seq![port]) == match rules::lookup(entries, port) {
            Some(a) => seq![a],
            None => Seq::empty(),
        },
{
    assert(seq![port].drop_last() =~= Seq::<u16>::empty());
    reveal_with_fuel(rules::lookup_all, 2);
}

/// The first rule on a listening port is what applies to connections on it, and
/// a further one is taken into account behind it.
pub proof fn lemma_port_rule_applies(p: PolicyModel, port: u16, a: action::ActionModel)
    requires
        rules::distinct_keys(p.listen_port),
    ensures
        ({
            let rule = parser::RuleModel { filter: parser::FilterModel::ListenPort(port), action: a };
            let before = port_actions(p, Some(port));
            let after = port_actions(rule_added(p, rule), Some(port));
            &&& before.len() == 0 ==> after == seq![a]
            &&& before.len() > 0 ==> after == seq![action::combine(before[0], a)]
            &&& rules::distinct_keys(rule_added(p, rule).listen_port)
        }),
{
    rules::lemma_lookup_after_add(p.listen_port, port, a, port);
    lemma_one_port(p.listen_port, port);
    lemma_one_port(rules::added(p.listen_port, port, a), port);
    action::lemma_combine_with_nothing(a);
}

/// The first rule on a domain applies to connections to the domain and to its
/// subdomains, and to no others. It does not touch the rules on ports and
/// addresses.
pub proof fn lemma_domain_rule_applies(
    p: PolicyModel,
    domain: Seq<char>,
    a: action::ActionModel,
    name: Seq<char>,
)
    requires
        rules::distinct_keys(p.dst_domain),
        domain.len() > 0,
        domain.last() != '.',
        name.len() > 0,
        name.last() != '.',
    ensures
        ({
            let rule = parser::RuleModel { filter: parser::FilterModel::Sni(domain), action: a };
            let after = rule_added(p, rule);
            let is_meant = name == domain || (name.len() > domain.len() && name.skip(
                name.len() - domain.len(),
            ) == domain && name[name.len() - domain.len() - 1] == '.');
            &&& is_meant && (forall|i: int|
                0 <= i < p.dst_domain.len() ==> (#[trigger] p.dst_domain[i]).0 != domain)
                ==> domain_actions(after, Some(name)).contains(a)
            &&& !is_meant ==> domain_actions(after, Some(name)) == domain_actions(p, Some(name))
            &&& after.listen_port == p.listen_port && after.dst_ipv4 == p.dst_ipv4
            &&& after.dst_ipv6 == p.dst_ipv6 && after.default_action == p.default_action
        }),
{
    let keys = rules::domain_keys(name);
    let entries = rules::added(p.dst_domain, domain, a);
    rules::lemma_rules_stay_in_their_domain(domain, name);
    if keys.contains(domain) {
        rules::lemma_lookup_after_add(p.dst_domain, domain, a, domain);
        rules::lemma_what_key_has(p.dst_domain, domain, 0);
        action::lemma_combine_with_nothing(a);
        rules::lemma_found_for_keys(entries, keys, a);
        let i = choose|i: int| 0 <= i < keys.len() && keys[i] == domain;
        assert(keys[i] == domain);
    } else {
        rules::lemma_other_keys_unchanged(p.dst_domain, domain, a, keys);
    }
}

/// The first rule on an IPv4 network applies to the addresses that have the same
/// first bits, and to no others.
pub proof fn lemma_ipv4_rule_applies(
    p: PolicyModel,
    net: crate::net::Ipv4Addr,
    len: u8,
    a: action::ActionModel,
    ip: crate::net::Ipv4Addr,
)
    requires
        rules::distinct_keys(p.dst_ipv4),
        len <= 32,
        parser::is_ip_network(IpAddr::V4(net), len as nat),
    ensures
        ({
            let rule = parser::RuleModel {
                filter: parser::FilterModel::DstIp(IpAddr::V4(net), len),
                action: a,
            };
            let after = rule_added(p, rule);
            let rest = vstd::arithmetic::power2::pow2((32 - len) as nat);
            let is_meant = ip.bits as nat / rest == net.bits as nat / rest;
            let key = (parser::address_key(IpAddr::V4(net)).0, len as nat);
            &&& rest > 0
            &&& is_meant && (forall|i: int|
                0 <= i < p.dst_ipv4.len() ==> (#[trigger] p.dst_ipv4[i]).0 != key) ==> ip_actions(
                after,
                Some(IpAddr::V4(ip)),
            ).contains(a)
            &&& !is_meant ==> ip_actions(after, Some(IpAddr::V4(ip))) == ip_actions(
                p,
                Some(IpAddr::V4(ip)),
            )
            &&& after.listen_port == p.listen_port && after.dst_domain == p.dst_domain
            &&& after.dst_ipv6 == p.dst_ipv6 && after.default_action == p.default_action
        }),
{
    let bits = parser::address_key(IpAddr::V4(ip)).0;
    let base = parser::address_key(IpAddr::V4(net)).0;
    let key = (base, len as nat);
    prefix::lemma_same_first_bits_of_ipv4(ip.bits, net.bits, len as nat);
    prefix::lemma_same_first_bits(base, base, len as nat);
    prefix::lemma_same_first_bits(bits, base, len as nat);
    rules::lemma_networks_of_address(bits, base, len as nat);
    lemma_address_rule(p.dst_ipv4, key, a, rules::networks_around(bits, 129));
}

/// The first rule on an IPv6 network applies to the addresses that have the same
/// first bits and do not stand for IPv4 addresses, and to no others.
pub proof fn lemma_ipv6_rule_applies(
    p: PolicyModel,
    net: crate::net::Ipv6Addr,
    len: u8,
    a: action::ActionModel,
    ip: crate::net::Ipv6Addr,
)
    requires
        rules::distinct_keys(p.dst_ipv6),
        len <= 128,
        parser::is_ip_network(IpAddr::V6(net), len as nat),
        ip.bits / 0x1_0000_0000 != 0xffff,
    ensures
        ({
            let rule = parser::RuleModel {
                filter: parser::FilterModel::DstIp(IpAddr::V6(net), len),
                action: a,
            };
            let after = rule_added(p, rule);
            let rest = vstd::arithmetic::power2::pow2((128 - len) as nat);
            let is_meant = ip.bits as nat / rest == net.bits as nat / rest;
            &&& rest > 0
            &&& is_meant && (forall|i: int|
                0 <= i < p.dst_ipv6.len() ==> (#[trigger] p.dst_ipv6[i]).0 != (
                    net.bits,
                    len as nat,
                )) ==> ip_actions(after, Some(IpAddr::V6(ip))).contains(a)
            &&& !is_meant ==> ip_actions(after, Some(IpAddr::V6(ip))) == ip_actions(
                p,
                Some(IpAddr::V6(ip)),
            )
            &&& after.listen_port == p.listen_port && after.dst_domain == p.dst_domain
            &&& after.dst_ipv4 == p.dst_ipv4 && after.default_action == p.default_action
        }),
{
    let key = (net.bits, len as nat);
    rules::lemma_networks_of_address(ip.bits, net.bits, len as nat);
    lemma_address_rule(p.dst_ipv6, key, a, rules::networks_around(ip.bits, 129));
}

proof fn lemma_address_rule(
    entries: Seq<((u128, nat), action::ActionModel)>,
    key: (u128, nat),
    a: action::ActionModel,
    keys: Seq<(u128, nat)>,
)
    requires
        rules::distinct_keys(entries),
    ensures
        keys.contains(key) && (forall|i: int|
            0 <= i < entries.len() ==> (#[trigger] entries[i]).0 != key) ==> rules::lookup_all(
            rules::added(entries, key, a),
            keys,
        ).contains(a),
        !keys.contains(key) ==> rules::lookup_all(rules::added(entries, key, a), keys)
            == rules::lookup_all(entries, keys),
{
    if keys.contains(key) {
        rules::lemma_lookup_after_add(entries, key, a, key);
        rules::lemma_what_key_has(entries, key, 0);
        action::lemma_combine_with_nothing(a);
        rules::lemma_found_for_keys(rules::added(entries, key, a), keys, a);
        let i = choose|i: int| 0 <= i < keys.len() && keys[i] == key;
        assert(keys[i] == key);
    } else {
        rules::lemma_other_keys_unchanged(entries, key, a, keys);
    }
}

/// A default rule that is no requirement takes the place of the default action
/// unless that has a higher priority, and touches no other rule.
pub proof fn lemma_default_rule_applies(p: PolicyModel, a: action::ActionModel)
    ensures
        ({
            let rule = parser::RuleModel { filter: parser::FilterModel::Default, action: a };
            let after = rule_added(p, rule);
            &&& p.default_action.priority <= a.priority && !(a.action is Require)
                ==> after.default_action == a
            &&& p.default_action.priority < a.priority ==> after.default_action == a
            &&& p.default_action.priority > a.priority ==> after.default_action == p.default_action
            &&& after.listen_port == p.listen_port && after.dst_domain == p.dst_domain
            &&& after.dst_ipv4 == p.dst_ipv4 && after.dst_ipv6 == p.dst_ipv6
        }),
{
}

/// Rules on the domain come behind those on the address, these behind those on
/// the port, and these behind the default one: where the last of all that apply
/// is no requirement and none has a higher priority, it holds.
pub proof fn lemma_closer_rule_holds(
    p: PolicyModel,
    port: Option<u16>,
    ip: Option<IpAddr>,
    name: Option<Seq<char>>,
    a: action::ActionModel,
)
    requires
        ({
            let x = port_actions(p, port);
            let y = ip_actions(p, ip);
            let z = domain_actions(p, name);
            ||| z.len() > 0 && z.last() == a
            ||| z.len() == 0 && y.len() > 0 && y.last() == a
            ||| z.len() == 0 && y.len() == 0 && x.len() > 0 && x.last() == a
        }),
        !(a.action is Require),
        p.default_action.priority <= a.priority,
        forall|b: action::ActionModel|
            port_actions(p, port).contains(b) || ip_actions(p, ip).contains(b) || domain_actions(
                p,
                name,
            ).contains(b) ==> (#[trigger] b.priority) <= a.priority,
    ensures
        action_for(p, port, ip, name) == a,
{
    let x = port_actions(p, port);
    let y = ip_actions(p, ip);
    let z = domain_actions(p, name);
    let all = x + y + z;
    assert(all.last() == a);
    assert forall|i: int| 0 <= i < all.len() implies (#[trigger] all[i]).priority
        <= all.last().priority by {
        if i < x.len() {
            assert(x[i] == all[i]);
            assert(x.contains(all[i]));
        } else if i < x.len() + y.len() {
            assert(y[i - x.len()] == all[i]);
            assert(y.contains(all[i]));
        } else {
            assert(z[i - x.len() - y.len()] == all[i]);
            assert(z.contains(all[i]));
        }
    }
    action::lemma_last_holds(p.default_action, all);
}

/// What the rules on port, address and domain require of the same priority is
/// required together.
pub proof fn lemma_requirements_add_up(
    p: PolicyModel,
    port: Option<u16>,
    ip: Option<IpAddr>,
    name: Option<Seq<char>>,
    a: action::ActionModel,
    requirement: Seq<Seq<char>>,
)
    requires
        p.default_action.action is Require,
        forall|b: action::ActionModel|
            port_actions(p, port).contains(b) || ip_actions(p, ip).contains(b) || domain_actions(
                p,
                name,
            ).contains(b) ==> (#[trigger] b.priority) == p.default_action.priority
                && b.action is Require,
        a == p.default_action || port_actions(p, port).contains(a) || ip_actions(p, ip).contains(a)
            || domain_actions(p, name).contains(a),
        a.action->Require_0.contains(requirement),
    ensures
        action_for(p, port, ip, name).action matches action::ActionKind::Require(all)
            && all.contains(requirement),
{
    let x = port_actions(p, port);
    let y = ip_actions(p, ip);
    let z = domain_actions(p, name);
    let all = x + y + z;
    assert forall|i: int| 0 <= i < all.len() implies (#[trigger] all[i]).action is Require
        && all[i].priority == p.default_action.priority by {
        if i < x.len() {
            assert(x[i] == all[i]);
            assert(x.contains(all[i]));
        } else if i < x.len() + y.len() {
            assert(y[i - x.len()] == all[i]);
            assert(y.contains(all[i]));
        } else {
            assert(z[i - x.len() - y.len()] == all[i]);
            assert(z.contains(all[i]));
        }
        assert(all[i].priority == p.default_action.priority);
    }
    action::lemma_all_requirements_count(p.default_action, all, requirement);
    if x.contains(a) {
        let i = choose|i: int| 0 <= i < x.len() && x[i] == a;
        assert(all[i] == a);
    } else if y.contains(a) {
        let i = choose|i: int| 0 <= i < y.len() && y[i] == a;
        assert(all[x.len() + i] == a);
    } else if z.contains(a) {
        let i = choose|i: int| 0 <= i < z.len() && z[i] == a;
        assert(all[x.len() + y.len() + i] == a);
    }
}

/// A policy is loaded exactly where each line can be read; otherwise the first
/// line that cannot is told, by its number from zero on.
pub proof fn lemma_when_loaded(lines: Seq<Option<Seq<char>>>)
    requires
        lines.len() <= usize::MAX,
    ensures
        load_result(lines) is Ok <==> forall|i: int|
            0 <= i < lines.len() ==> ((#[trigger] lines[i]) matches Some(text)
                && parser::line_result(text) is Some),
        load_result(lines) matches Err(PolicyError::Syntax { line }) ==> line < lines.len()
            && load_result(lines.take(line as int)) is Ok && (lines[line as int] matches Some(text)
            && parser::line_result(text) is None),
        load_result(lines) matches Err(PolicyError::Encoding { line }) ==> line < lines.len()
            && load_result(lines.take(line as int)) is Ok && lines[line as int] is None,
    decreases lines.len(),
{
    if lines.len() > 0 {
        let front = lines.drop_last();
        let n = lines.len() - 1;
        lemma_when_loaded(front);
        assert(lines[n] == lines.last());
        assert(lines.take(n) =~= front);
        assert forall|i: int| 0 <= i < n implies front[i] == #[trigger] lines[i] by {}
        if load_result(front) is Err {
            match load_result(front) {
                Err(PolicyError::Syntax { line }) => {
                    assert(lines.take(line as int) =~= front.take(line as int));
                    assert(lines[line as int] == front[line as int]);
                },
                Err(PolicyError::Encoding { line }) => {
                    assert(lines.take(line as int) =~= front.take(line as int));
                    assert(lines[line as int] == front[line as int]);
                },
                _ => {},
            }
        } else {
            assert forall|i: int| 0 <= i < n implies ((#[trigger] lines[i]) matches Some(text)
                && parser::line_result(text) is Some) by {
                assert(front[i] == lines[i]);
            }
        }
    }
}

/// A line that says nothing changes nothing, and one that says a rule adds it.
pub proof fn lemma_line_by_line(lines: Seq<Option<Seq<char>>>, text: Seq<char>)
    requires
        load_result(lines) is Ok,
    ensures
        parser::line_result(text) == Some(None::<parser::RuleModel>) ==> load_result(
            lines.push(Some(text)),
        ) == load_result(lines),
        parser::line_result(text) matches Some(Some(rule)) ==> load_result(lines.push(Some(text)))
            == Ok::<PolicyModel, PolicyError>(rule_added(load_result(lines)->Ok_0, rule)),
        load_result(Seq::empty()) == Ok::<PolicyModel, PolicyError>(no_rules()),
{
    assert(lines.push(Some(text)).drop_last() =~= lines);
}

/// The first rule on a port, a domain or a network counts as many rules as its
/// action has requirements, one where it is another action; the default rule
/// does not count.
pub proof fn lemma_rules_are_counted(p: PolicyModel, rule: parser::RuleModel)
    requires
        rule.filter matches parser::FilterModel::ListenPort(port) ==> forall|i: int|
            0 <= i < p.listen_port.len() ==> (#[trigger] p.listen_port[i]).0 != port,
        rule.filter matches parser::FilterModel::Sni(name) ==> forall|i: int|
            0 <= i < p.dst_domain.len() ==> (#[trigger] p.dst_domain[i]).0 != name,
        rule.filter matches parser::FilterModel::DstIp(ip, len) ==> {
            let key = (parser::address_key(ip).0, len as nat);
            &&& forall|i: int| 0 <= i < p.dst_ipv4.len() ==> (#[trigger] p.dst_ipv4[i]).0 != key
            &&& forall|i: int| 0 <= i < p.dst_ipv6.len() ==> (#[trigger] p.dst_ipv6[i]).0 != key
        },
    ensures
        rule.filter is Default ==> rule_total(rule_added(p, rule)) == rule_total(p),
        !(rule.filter is Default) ==> rule_total(rule_added(p, rule)) == rule_total(p)
            + match rule.action.action {
            action::ActionKind::Require(caps) => caps.len(),
            action::ActionKind::Direct => 1,
            action::ActionKind::Reject => 1,
        },
        rule_total(no_rules()) == 0,
{
    match rule.filter {
        parser::FilterModel::ListenPort(port) => {
            rules::lemma_rules_are_counted(p.listen_port, port, rule.action);
        },
        parser::FilterModel::Sni(name) => {
            rules::lemma_rules_are_counted(p.dst_domain, name, rule.action);
        },
        parser::FilterModel::DstIp(ip, len) => {
            let key = (parser::address_key(ip).0, len as nat);
            match ip {
                IpAddr::V4(_) => {
                    rules::lemma_rules_are_counted(p.dst_ipv4, key, rule.action);
                },
                IpAddr::V6(_) => {
                    rules::lemma_rules_are_counted(p.dst_ipv6, key, rule.action);
                },
            }
        },
        parser::FilterModel::Default => {},
    }
}

} // verus!
