//! Choosing among proxy servers by what they are capable of.

use super::action::{Action, ActionType};
use super::capabilities::{CapSet, CheckAllCapsMeet};
use crate::monitor::find_server;
use crate::proxy::ProxyServer;
use vstd::prelude::*;

verus! {

/// Where a connection may go.
#[derive(Debug)]
pub enum Selection {
    /// Through one of these proxy servers.
    Proxies(Vec<usize>),
    /// Straight to its destination.
    Direct,
    /// Nowhere.
    Reject,
}

/// The ones of the first `n` servers that meet all requirements, in order.
pub open spec fn able(
    requirements: Set<Seq<Seq<char>>>,
    servers: Seq<Seq<Seq<char>>>,
    n: nat,
) -> Seq<usize>
    decreases n,
{
    if n == 0 {
        Seq::empty()
    } else {
        let front = able(requirements, servers, (n - 1) as nat);
        if super::capabilities::all_met(requirements, servers[n - 1]) {
            front.push((n - 1) as usize)
        } else {
            front
        }
    }
}

/// Decides where a connection may go, given what each server is capable of.
pub fn select(action: &Action, servers: &Vec<CapSet>) -> (r: Selection)
    ensures
        match action@.action {
            super::action::ActionKind::Direct => r is Direct,
            super::action::ActionKind::Reject => r is Reject,
            super::action::ActionKind::Require(requirements) => r matches Selection::Proxies(list)
                && list@ == able(
                requirements,
                super::capabilities::sets_of(servers@),
                servers@.len(),
            ),
        },
{
    match &action.action {
        ActionType::Direct => Selection::Direct,
        ActionType::Reject => Selection::Reject,
        ActionType::Require(requirements) => {
            let ghost sets = super::capabilities::sets_of(servers@);
            let n = servers.len();
            let mut list: Vec<usize> = Vec::new();
            let mut i: usize = 0;
            while i < n
                invariant
                    n == servers@.len(),
                    i <= n,
                    sets == super::capabilities::sets_of(servers@),
                    list@ == able(requirements@, sets, i as nat),
                decreases n - i,
            {
                assert(sets[i as int] == servers@[i as int]@);
                if requirements.all_meet_by(&servers[i]) {
                    list.push(i);
                }
                i = i + 1;
            }
            Selection::Proxies(list)
        },
    }
}

/// What each server is capable of: that of the first server in the list that is
/// the same, and nothing where there is none.
pub open spec fn capabilities_of(
    servers: Seq<crate::proxy::ServerModel>,
    listed: Seq<crate::proxy::ServerModel>,
    capabilities: Seq<Seq<Seq<char>>>,
) -> Seq<Seq<Seq<char>>> {
    Seq::new(
        servers.len(),
        |i: int|
            match crate::monitor::first_at(listed, servers[i].identity()) {
                Some(at) if at < capabilities.len() => capabilities[at],
                _ => Seq::empty(),
            },
    )
}

/// Whether a server is there for connections that came in at a port.
pub open spec fn serves(server: crate::proxy::ServerModel, port: u16) -> bool {
    server.config.listen_ports == Set::<u16>::empty() || server.config.listen_ports.contains(port)
}

/// The servers that may be tried for a connection, in order: they meet all
/// requirements, and are there for the port.
pub open spec fn candidates_of(
    requirements: Set<Seq<Seq<char>>>,
    sets: Seq<Seq<Seq<char>>>,
    servers: Seq<crate::proxy::ServerModel>,
    port: u16,
) -> Seq<usize> {
    able(requirements, sets, servers.len()).filter(|i: usize| serves(servers[i as int], port))
}

/// Decides where a connection that came in at a port may go, given the action
/// for it, and the list of servers with what each is capable of.
pub fn candidates(
    servers: &Vec<ProxyServer>,
    listed: &Vec<ProxyServer>,
    capabilities: &Vec<CapSet>,
    action: &Action,
    port: u16,
) -> (r: Selection)
    ensures
        match action@.action {
            super::action::ActionKind::Direct => r is Direct,
            super::action::ActionKind::Reject => r is Reject,
            super::action::ActionKind::Require(requirements) => r matches Selection::Proxies(list)
                && list@ == candidates_of(
                requirements,
                capabilities_of(
                    crate::proxy::server_models(servers@),
                    crate::proxy::server_models(listed@),
                    super::capabilities::sets_of(capabilities@),
                ),
                crate::proxy::server_models(servers@),
                port,
            ),
        },
{
    let ghost models = crate::proxy::server_models(servers@);
    let ghost sets = capabilities_of(
        models,
        crate::proxy::server_models(listed@),
        super::capabilities::sets_of(capabilities@),
    );
    let n = servers.len();
    let mut caps: Vec<CapSet> = Vec::new();
    let mut i: usize = 0;
    while i < n
        invariant
            n == servers@.len(),
            i <= n,
            models == crate::proxy::server_models(servers@),
            sets == capabilities_of(
                models,
                crate::proxy::server_models(listed@),
                super::capabilities::sets_of(capabilities@),
            ),
            caps@.len() == i,
            forall|j: int| 0 <= j < i ==> (#[trigger] caps@[j])@ == sets[j],
        decreases n - i,
    {
        assert(models[i as int] == servers@[i as int]@);
        let found = match find_server(listed, &servers[i]) {
            Some(at) => if at < capabilities.len() {
                capabilities[at].clone()
            } else {
                CapSet::default()
            },
            None => CapSet::default(),
        };
        proof {
            let all = super::capabilities::sets_of(capabilities@);
            assert(listed.len() == listed@.len());
            assert(forall|k: int|
                0 <= k < all.len() ==> #[trigger] all[k] == capabilities@[k]@);
        }
        assert(found@ =~= sets[i as int]);
        caps.push(found);
        i = i + 1;
    }
    assert(super::capabilities::sets_of(caps@) =~= sets);
    match select(action, &caps) {
        Selection::Direct => Selection::Direct,
        Selection::Reject => Selection::Reject,
        Selection::Proxies(allowed) => {
            let ghost is_there = |i: usize| serves(models[i as int], port);
            let ghost requirements = action@.action->Require_0;
            proof {
                lemma_able_in_range(requirements, sets, models.len());
            }
            let m = allowed.len();
            let mut list: Vec<usize> = Vec::new();
            let mut k: usize = 0;
            proof {
                reveal(Seq::filter);
                assert(allowed@.take(0).filter(is_there) =~= Seq::<usize>::empty());
            }
            while k < m
                invariant
                    m == allowed@.len(),
                    k <= m,
                    models == crate::proxy::server_models(servers@),
                    is_there == (|i: usize| serves(models[i as int], port)),
                    forall|j: int| 0 <= j < m ==> (#[trigger] allowed@[j]) < servers@.len(),
                    list@ == allowed@.take(k as int).filter(is_there),
                decreases m - k,
            {
                let at = allowed[k];
                proof {
                    reveal(Seq::filter);
                    assert(allowed@.take(k + 1).drop_last() =~= allowed@.take(k as int));
                    assert(models[at as int] == servers@[at as int]@);
                }
                if servers[at].serve_port(port) {
                    list.push(at);
                }
                k = k + 1;
            }
            assert(allowed@.take(m as int) =~= allowed@);
            Selection::Proxies(list)
        },
    }
}

proof fn lemma_able_in_range(
    requirements: Set<Seq<Seq<char>>>,
    servers: Seq<Seq<Seq<char>>>,
    n: nat,
)
    requires
        n <= servers.len(),
        n <= usize::MAX,
    ensures
        forall|j: int|
            0 <= j < able(requirements, servers, n).len() ==> (#[trigger] able(
                requirements,
                servers,
                n,
            )[j]) < n,
    decreases n,
{
    if n > 0 {
        lemma_able_in_range(requirements, servers, (n - 1) as nat);
        let front = able(requirements, servers, (n - 1) as nat);
        let all = able(requirements, servers, n);
        assert forall|j: int| 0 <= j < all.len() implies (#[trigger] all[j]) < n by {
            if j < front.len() {
                assert(all[j] == front[j]);
            }
        }
    }
}

/// A server may be tried for a connection exactly where it meets all that the
/// policy requires and is there for the port.
pub proof fn lemma_only_candidates(
    requirements: Set<Seq<Seq<char>>>,
    sets: Seq<Seq<Seq<char>>>,
    servers: Seq<crate::proxy::ServerModel>,
    port: u16,
    i: usize,
)
    requires
        sets.len() == servers.len(),
        servers.len() <= usize::MAX,
    ensures
        candidates_of(requirements, sets, servers, port).contains(i) <==> i < servers.len()
            && super::capabilities::all_met(requirements, sets[i as int]) && serves(
            servers[i as int],
            port,
        ),
{
    let is_there = |i: usize| serves(servers[i as int], port);
    let all = able(requirements, sets, servers.len());
    lemma_only_able_servers(requirements, sets, servers.len(), i);
    lemma_filtered(all, is_there, i);
}

proof fn lemma_filtered(s: Seq<usize>, keep: spec_fn(usize) -> bool, i: usize)
    ensures
        s.filter(keep).contains(i) <==> s.contains(i) && keep(i),
    decreases s.len(),
{
    reveal(Seq::filter);
    if s.len() > 0 {
        let front = s.drop_last();
        lemma_filtered(front, keep, i);
        let last = s.last();
        assert(s =~= front.push(last));
        let kept = front.filter(keep);
        if front.contains(i) {
            let k = choose|k: int| 0 <= k < front.len() && front[k] == i;
            assert(s[k] == i);
        }
        if s.contains(i) && i != last {
            let k = choose|k: int| 0 <= k < s.len() && s[k] == i;
            assert(front[k] == i);
        }
        if kept.contains(i) {
            let k = choose|k: int| 0 <= k < kept.len() && kept[k] == i;
            assert(s.filter(keep)[k] == i);
        }
        if keep(last) {
            assert(s.filter(keep) =~= kept.push(last));
            assert(s.filter(keep)[kept.len() as int] == last);
            if s.filter(keep).contains(i) && i != last {
                let k = choose|k: int| 0 <= k < s.filter(keep).len() && s.filter(keep)[k] == i;
                assert(kept[k] == i);
            }
        }
        assert(s[s.len() - 1] == last);
    }
}

/// A connection is given to a server exactly where the server meets all that
/// the policy requires of it.
pub proof fn lemma_only_able_servers(
    requirements: Set<Seq<Seq<char>>>,
    servers: Seq<Seq<Seq<char>>>,
    n: nat,
    i: usize,
)
    requires
        n <= servers.len(),
        n <= usize::MAX,
    ensures
        able(requirements, servers, n).contains(i) <==> i < n
            && super::capabilities::all_met(requirements, servers[i as int]),
    decreases n,
{
    if n > 0 {
        lemma_only_able_servers(requirements, servers, (n - 1) as nat, i);
        let front = able(requirements, servers, (n - 1) as nat);
        let all = able(requirements, servers, n);
        if front.contains(i) {
            let k = choose|k: int| 0 <= k < front.len() && front[k] == i;
            assert(all[k] == i);
        }
        if all.contains(i) && i != n - 1 {
            let k = choose|k: int| 0 <= k < all.len() && all[k] == i;
            assert(front[k] == i);
        }
        if i == n - 1 && super::capabilities::all_met(requirements, servers[n - 1]) {
            assert(all.last() == i);
            assert(all[all.len() - 1] == i);
        }
    }
}

/// Where nothing is required, every server may be used.
pub proof fn lemma_nothing_required(servers: Seq<Seq<Seq<char>>>, n: nat)
    requires
        n <= usize::MAX,
    ensures
        able(Set::empty(), servers, n) == Seq::new(n, |i: int| i as usize),
    decreases n,
{
    if n > 0 {
        lemma_nothing_required(servers, (n - 1) as nat);
    }
    assert(able(Set::empty(), servers, n) =~= Seq::new(n, |i: int| i as usize));
}

/// Where all that a policy says is that connections on a port require a
/// capability, those connections may use exactly the servers that have it, and
/// the connections on other ports may use any.
pub proof fn lemma_port_is_delegated(
    port: u16,
    cap: Seq<char>,
    other: Option<u16>,
    ip: Option<crate::net::IpAddr>,
    name: Option<Seq<char>>,
    servers: Seq<Seq<Seq<char>>>,
    i: usize,
)
    requires
        port > 0,
        cap.len() > 0,
        forall|i: int| 0 <= i < cap.len() ==> super::parser::is_id_char(#[trigger] cap[i]),
        other != Some(port),
        servers.len() <= usize::MAX,
    ensures
        super::load_result(
            seq![Some(super::parser::port_rule_text(port, "require "@ + cap))],
        ) matches Ok(p) && {
            &&& super::action_for(p, Some(port), ip, name).action matches super::action::ActionKind::Require(
                requirements,
            ) && (able(requirements, servers, servers.len()).contains(i) <==> i < servers.len()
                && servers[i as int].contains(cap))
            &&& super::action_for(p, other, ip, name).action
                == super::action::ActionKind::Require(Set::empty())
        },
{
    let text = super::parser::port_rule_text(port, "require "@ + cap);
    let lines = seq![Some(text)];
    let requirements = set![seq![cap]];
    let a = super::action::ActionModel {
        priority: 0,
        action: super::action::ActionKind::Require(requirements),
    };
    super::parser::lemma_port_requirement_read_back(port, cap);
    assert(lines.drop_last() =~= Seq::<Option<Seq<char>>>::empty());
    reveal_with_fuel(super::load_result, 2);
    let p = super::rule_added(
        super::no_rules(),
        super::parser::RuleModel { filter: super::parser::FilterModel::ListenPort(port), action: a },
    );
    super::lemma_port_rule_is_for_its_port(super::no_rules(), port, a, other, ip, name);
    super::action::lemma_combine_with_nothing(a);
    lemma_no_rule_applies(other, ip, name);
    super::rules::lemma_lookup_after_add(super::no_rules().listen_port, port, a, port);
    let found = super::port_actions(p, Some(port));
    assert(found =~= seq![a]) by {
        assert(seq![port].drop_last() =~= Seq::<u16>::empty());
        reveal_with_fuel(super::rules::lookup_all, 2);
    }
    lemma_nothing_found(
        super::no_rules().dst_domain,
        match name {
            Some(name) => super::rules::domain_keys(name),
            None => Seq::empty(),
        },
    );
    if let Some(ip) = ip {
        lemma_nothing_found(
            super::no_rules().dst_ipv4,
            super::rules::networks_around(
                super::parser::address_key(crate::net::canonical_spec(ip)).0,
                129,
            ),
        );
    }
    assert(found + super::ip_actions(p, ip) + super::domain_actions(p, name) =~= seq![a]);
    assert(seq![a].drop_last() =~= Seq::<super::action::ActionModel>::empty());
    reveal_with_fuel(super::action::combine_all, 2);
    assert(super::action_for(p, Some(port), ip, name) == a);
    lemma_only_able_servers(requirements, servers, servers.len(), i);
    if i < servers.len() {
        assert(requirements.contains(seq![cap]));
        assert(seq![cap][0] == cap);
        assert(seq![cap].contains(cap));
    }
}

proof fn lemma_nothing_found<K>(
    entries: Seq<(K, super::action::ActionModel)>,
    keys: Seq<K>,
)
    requires
        entries.len() == 0,
    ensures
        super::rules::lookup_all(entries, keys) == Seq::<super::action::ActionModel>::empty(),
    decreases keys.len(),
{
    if keys.len() > 0 {
        lemma_nothing_found(entries, keys.drop_last());
    }
}

proof fn lemma_no_rule_applies(
    port: Option<u16>,
    ip: Option<crate::net::IpAddr>,
    name: Option<Seq<char>>,
)
    ensures
        super::action_for(super::no_rules(), port, ip, name) == super::action::no_requirement(),
{
    let p = super::no_rules();
    if let Some(port) = port {
        lemma_nothing_found(p.listen_port, seq![port]);
    }
    if let Some(ip) = ip {
        let around = super::rules::networks_around(
            super::parser::address_key(crate::net::canonical_spec(ip)).0,
            129,
        );
        lemma_nothing_found(p.dst_ipv4, around);
    }
    if let Some(name) = name {
        lemma_nothing_found(p.dst_domain, super::rules::domain_keys(name));
    }
    assert(super::port_actions(p, port) + super::ip_actions(p, ip) + super::domain_actions(p, name)
        =~= Seq::<super::action::ActionModel>::empty());
}

/// A server that names no ports is there for connections on all of them, and one
/// that names ports only for those.
pub proof fn lemma_who_serves(server: crate::proxy::ServerModel, port: u16)
    ensures
        serves(server, port) <==> (forall|p: u16|
            !(#[trigger] server.config.listen_ports.contains(p)))
            || server.config.listen_ports.contains(port),
{
    if forall|p: u16| !(#[trigger] server.config.listen_ports.contains(p)) {
        assert(server.config.listen_ports =~= Set::<u16>::empty());
    }
}

/// A server is capable of what the first same one in the list is capable of, and
/// of nothing where the list has none.
pub proof fn lemma_capabilities_by_server(
    servers: Seq<crate::proxy::ServerModel>,
    listed: Seq<crate::proxy::ServerModel>,
    capabilities: Seq<Seq<Seq<char>>>,
    i: int,
    at: int,
)
    requires
        0 <= i < servers.len(),
        capabilities.len() == listed.len(),
    ensures
        0 <= at < listed.len() && listed[at].identity() == servers[i].identity() && (forall|j: int|
            0 <= j < at ==> (#[trigger] listed[j]).identity() != servers[i].identity())
            ==> capabilities_of(servers, listed, capabilities)[i] == capabilities[at],
        (forall|j: int|
            0 <= j < listed.len() ==> (#[trigger] listed[j]).identity() != servers[i].identity())
            ==> capabilities_of(servers, listed, capabilities)[i].len() == 0,
        capabilities_of(servers, listed, capabilities).len() == servers.len(),
{
    crate::monitor::lemma_first_place(listed, servers[i].identity(), at);
}

proof fn lemma_able_in_order(
    requirements: Set<Seq<Seq<char>>>,
    servers: Seq<Seq<Seq<char>>>,
    n: nat,
    j: int,
    k: int,
)
    requires
        n <= servers.len(),
        n <= usize::MAX,
        0 <= j < k < able(requirements, servers, n).len(),
    ensures
        able(requirements, servers, n)[j] < able(requirements, servers, n)[k],
    decreases n,
{
    if n > 0 {
        let front = able(requirements, servers, (n - 1) as nat);
        let all = able(requirements, servers, n);
        lemma_able_in_range(requirements, servers, (n - 1) as nat);
        assert(all[j] == front[j]);
        if k < front.len() {
            assert(all[k] == front[k]);
            lemma_able_in_order(requirements, servers, (n - 1) as nat, j, k);
        }
    }
}

/// The servers that meet all requirements are given in the order of the list.
pub proof fn lemma_servers_keep_their_order(
    requirements: Set<Seq<Seq<char>>>,
    servers: Seq<Seq<Seq<char>>>,
    j: int,
    k: int,
)
    requires
        servers.len() <= usize::MAX,
        0 <= j < k < able(requirements, servers, servers.len()).len(),
    ensures
        able(requirements, servers, servers.len())[j] < able(
            requirements,
            servers,
            servers.len(),
        )[k],
{
    lemma_able_in_order(requirements, servers, servers.len(), j, k);
}

} // verus!
