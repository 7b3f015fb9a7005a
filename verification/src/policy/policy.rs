//! A policy that knows requirements only.

use super::capabilities::{CapRequirements, CapSet};
use super::PolicyError;
use crate::route::parser::Rule;
use crate::route::router::Router;
use crate::route::table::RequirementTable;
use vstd::prelude::*;

verus! {

/// Requirements by the port that a connection came in at.
#[derive(Debug)]
pub struct ListenPortRuleSet {
    pub table: RequirementTable<u16>,
}

/// Requirements by the domain that a connection goes to.
#[derive(Debug)]
pub struct SniRuleSet {
    pub table: RequirementTable<String>,
}

/// A policy that knows requirements only.
#[derive(Debug)]
pub struct Policy {
    pub listen_port_ruleset: ListenPortRuleSet,
    pub sni_ruleset: SniRuleSet,
}

impl View for Policy {
    type V = crate::route::router::RouterModel;

    open spec fn view(&self) -> crate::route::router::RouterModel {
        crate::route::router::RouterModel {
            listen_port: self.listen_port_ruleset.table@,
            sni: self.sni_ruleset.table@,
        }
    }
}

/// The requirements that apply to a connection.
pub open spec fn rules_for(
    p: crate::route::router::RouterModel,
    port: Option<u16>,
    sni: Option<Seq<char>>,
) -> crate::route::table::Requirements {
    let by_port = match port {
        Some(port) => super::rules::lookup(p.listen_port, port).unwrap_or(Set::empty()),
        None => Set::empty(),
    };
    let by_sni = match sni {
        Some(name) => crate::route::table::together(
            super::rules::lookup_all(p.sni, crate::route::table::sni_keys(name)),
        ),
        None => Set::empty(),
    };
    by_port.union(by_sni)
}

impl SniRuleSet {
    /// The alternatives that are required of a domain, by it itself, by the
    /// domains that it lies in and by the root, in this order.
    pub fn get(&self, sni: &str) -> (r: Vec<CapSet>)
        ensures
            super::capabilities::sets_of(r@) == crate::route::table::alternatives(
                super::rules::lookup_all(self.table@, crate::route::table::sni_keys(sni@)),
            ),
    {
        let found = self.table.get_domain(sni);
        let n = found.len();
        let mut r: Vec<CapSet> = Vec::new();
        let mut i: usize = 0;
        let ghost all = crate::route::table::models(found@);
        assert(all.take(0) =~= Seq::<crate::route::table::Requirements>::empty());
        assert(super::capabilities::sets_of(r@) =~= crate::route::table::alternatives(
            all.take(0),
        ));
        while i < n
            invariant
                n == found@.len(),
                i <= n,
                all == crate::route::table::models(found@),
                super::capabilities::sets_of(r@) == crate::route::table::alternatives(
                    all.take(i as int),
                ),
            decreases n - i,
        {
            let mut listed = found[i].listed();
            let ghost before = super::capabilities::sets_of(r@);
            let ghost more = super::capabilities::sets_of(listed@);
            r.append(&mut listed);
            proof {
                assert(all.take(i + 1).drop_last() =~= all.take(i as int));
                assert(all.take(i + 1).last() == found@[i as int]@);
                assert(super::capabilities::sets_of(r@) =~= before + more);
            }
            i = i + 1;
        }
        assert(all.take(n as int) =~= all);
        r
    }
}

impl Policy {
    /// Reads a policy from its text, one rule a line.
    pub fn from_file(data: &[u8]) -> (r: Result<Policy, PolicyError>)
        ensures
            match crate::route::router::load_result(crate::lines::text_lines(data@)) {
                Ok(model) => r matches Ok(policy) && policy@ == model,
                Err(e) => r == Err::<Policy, PolicyError>(e),
            },
    {
        match Router::from_file(data) {
            Ok(router) => Ok(
                Policy {
                    listen_port_ruleset: ListenPortRuleSet { table: router.listen_port_caps },
                    sni_ruleset: SniRuleSet { table: router.sni_caps },
                },
            ),
            Err(e) => Err(e),
        }
    }

    /// Adds a rule.
    pub fn add_rule(&mut self, rule: Rule)
        ensures
            final(self)@ == crate::route::router::rule_added(old(self)@, rule@),
    {
        let mut router = Router::default();
        std::mem::swap(&mut router.listen_port_caps, &mut self.listen_port_ruleset.table);
        std::mem::swap(&mut router.sni_caps, &mut self.sni_ruleset.table);
        router.add_rule(rule);
        self.listen_port_ruleset.table = router.listen_port_caps;
        self.sni_ruleset.table = router.sni_caps;
    }

    /// How many rules there are; no more than the largest number.
    pub fn rule_count(&self) -> (n: usize)
        ensures
            n == if crate::route::router::rule_total(self@) <= usize::MAX {
                crate::route::router::rule_total(self@) as int
            } else {
                usize::MAX as int
            },
    {
        self.listen_port_ruleset.table.rule_count().saturating_add(
            self.sni_ruleset.table.rule_count(),
        )
    }

    /// The requirements that apply to a connection.
    pub fn get_rules(&self, listen_port: Option<u16>, sni: Option<&str>) -> (r: CapRequirements)
        ensures
            r@ == rules_for(self@, listen_port, super::name_view(sni)),
    {
        let mut rules = CapRequirements::new();
        if let Some(port) = listen_port {
            if let Some(caps) = self.listen_port_ruleset.table.get(&port) {
                rules = caps.clone();
            }
        }
        let ghost by_port = rules@;
        assert(by_port.union(Set::empty()) =~= by_port);
        if let Some(name) = sni {
            let found = self.sni_ruleset.table.get_domain(name);
            let n = found.len();
            let mut i: usize = 0;
            let ghost all = crate::route::table::models(found@);
            assert(all.take(0) =~= Seq::<crate::route::table::Requirements>::empty());
            assert(rules@ =~= by_port.union(crate::route::table::together(all.take(0))));
            while i < n
                invariant
                    n == found@.len(),
                    i <= n,
                    all == crate::route::table::models(found@),
                    rules@ == by_port.union(crate::route::table::together(all.take(i as int))),
                decreases n - i,
            {
                rules.extend(found[i].clone());
                proof {
                    assert(all.take(i + 1).drop_last() =~= all.take(i as int));
                    assert(all.take(i + 1).last() == found@[i as int]@);
                    assert(rules@ =~= by_port.union(
                        crate::route::table::together(all.take(i + 1)),
                    ));
                }
                i = i + 1;
            }
            assert(all.take(n as int) =~= all);
        }
        rules
    }
}

/// What is required of a connection is what is required of its port, of its name,
/// of the domains that the name lies in and of the root, and nothing else.
pub proof fn lemma_requirements_of_connection(
    p: crate::route::router::RouterModel,
    port: Option<u16>,
    sni: Option<Seq<char>>,
    caps: Seq<Seq<char>>,
)
    ensures
        rules_for(p, port, sni).contains(caps) <==> (port matches Some(port)
            && super::rules::lookup(p.listen_port, port) matches Some(all) && all.contains(caps))
            || (sni matches Some(name) && exists|i: int|
            0 <= i < crate::route::table::sni_keys(name).len() && (super::rules::lookup(
                p.sni,
                #[trigger] crate::route::table::sni_keys(name)[i],
            ) matches Some(all) && all.contains(caps))),
{
    if let Some(name) = sni {
        let keys = crate::route::table::sni_keys(name);
        let found = super::rules::lookup_all(p.sni, keys);
        crate::route::table::lemma_required_together(found, caps);
        if crate::route::table::together(found).contains(caps) {
            let k = choose|k: int| 0 <= k < found.len() && (#[trigger] found[k]).contains(caps);
            super::rules::lemma_found_for_keys(p.sni, keys, found[k]);
            assert(found.contains(found[k]));
            let i = choose|i: int|
                0 <= i < keys.len() && super::rules::lookup(p.sni, #[trigger] keys[i]) == Some(
                    found[k],
                );
            assert(super::rules::lookup(p.sni, keys[i]) == Some(found[k]));
        }
        if exists|i: int|
            0 <= i < keys.len() && (super::rules::lookup(p.sni, #[trigger] keys[i]) matches Some(
                all,
            ) && all.contains(caps)) {
            let i = choose|i: int|
                0 <= i < keys.len() && (super::rules::lookup(
                    p.sni,
                    #[trigger] keys[i],
                ) matches Some(all) && all.contains(caps));
            let all = super::rules::lookup(p.sni, keys[i])->0;
            super::rules::lemma_found_for_keys(p.sni, keys, all);
            assert(found.contains(all));
            let k = choose|k: int| 0 <= k < found.len() && found[k] == all;
            assert(found[k].contains(caps));
        }
    }
}

} // verus!
