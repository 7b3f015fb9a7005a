//! Requirements by port and domain.

use super::parser::{line_no_ending, Rule, RuleAction, RuleFilter};
use super::table::RequirementTable;
use crate::lines::lines_of;
use crate::policy::PolicyError;
use vstd::prelude::*;

verus! {

/// Requirements by the port that a connection came in at and by the domain that
/// it goes to.
#[derive(Debug)]
pub struct Router {
    pub listen_port_caps: RequirementTable<u16>,
    pub sni_caps: RequirementTable<String>,
}

/// The model of a router.
pub struct RouterModel {
    pub listen_port: Seq<(u16, super::table::Requirements)>,
    pub sni: Seq<(Seq<char>, super::table::Requirements)>,
}

impl View for Router {
    type V = RouterModel;

    open spec fn view(&self) -> RouterModel {
        RouterModel { listen_port: self.listen_port_caps@, sni: self.sni_caps@ }
    }
}

/// The router without any rule.
pub open spec fn no_rules() -> RouterModel {
    RouterModel { listen_port: Seq::empty(), sni: Seq::empty() }
}

/// The router with one more rule.
pub open spec fn rule_added(r: RouterModel, rule: super::parser::RuleModel) -> RouterModel {
    match rule.filter {
        super::parser::FilterModel::ListenPort(port) => RouterModel {
            listen_port: super::table::required(r.listen_port, port, rule.caps),
            ..r
        },
        super::parser::FilterModel::Sni(name) => RouterModel {
            sni: super::table::required(r.sni, name, rule.caps),
            ..r
        },
    }
}

/// The router that some lines make, each of them adding its rule.
pub open spec fn load_result(lines: Seq<Option<Seq<char>>>) -> Result<RouterModel, PolicyError>
    decreases lines.len(),
{
    if lines.len() == 0 {
        Ok(no_rules())
    } else {
        let line = (lines.len() - 1) as usize;
        match load_result(lines.drop_last()) {
            Err(e) => Err(e),
            Ok(r) => match lines.last() {
                None => Err(PolicyError::Encoding { line }),
                Some(text) => match super::parser::line_result(text) {
                    None => Err(PolicyError::Syntax { line }),
                    Some(None) => Ok(r),
                    Some(Some(rule)) => Ok(rule_added(r, rule)),
                },
            },
        }
    }
}

/// How many rules a router has.
pub open spec fn rule_total(r: RouterModel) -> nat {
    super::table::total(r.listen_port) + super::table::total(r.sni)
}

/// A line that cannot be read is the end: what follows does not matter.
pub proof fn lemma_first_error(lines: Seq<Option<Seq<char>>>, n: int)
    requires
        0 <= n <= lines.len(),
        load_result(lines.take(n)) is Err,
    ensures
        load_result(lines) == load_result(lines.take(n)),
    decreases lines.len() - n,
{
    if n < lines.len() {
        assert(lines.take(n + 1).drop_last() =~= lines.take(n));
        lemma_first_error(lines, n + 1);
    } else {
        assert(lines.take(n) =~= lines);
    }
}

impl Default for Router {
    /// No rule at all.
    fn default() -> (r: Router)
        ensures
            r@ == no_rules(),
    {
        Router { listen_port_caps: RequirementTable::new(), sni_caps: RequirementTable::new() }
    }
}

impl Router {
    /// Reads a router from its text, one rule a line.
    pub fn from_file(data: &[u8]) -> (r: Result<Router, PolicyError>)
        ensures
            match load_result(crate::lines::text_lines(data@)) {
                Ok(model) => r matches Ok(router) && router@ == model,
                Err(e) => r == Err::<Router, PolicyError>(e),
            },
    {
        let lines = lines_of(data);
        let n = lines.len();
        let mut router = Router::default();
        let mut i: usize = 0;
        let ghost texts = crate::lines::line_views(lines@);
        assert(texts.take(0) =~= Seq::<Option<Seq<char>>>::empty());
        while i < n
            invariant
                n == lines@.len(),
                i <= n,
                texts == crate::lines::line_views(lines@),
                texts == crate::lines::text_lines(data@),
                load_result(texts.take(i as int)) == Ok::<RouterModel, PolicyError>(router@),
            decreases n - i,
        {
            proof {
                assert(texts.take(i + 1).drop_last() =~= texts.take(i as int));
                assert(texts.take(i + 1).last() == texts[i as int]);
            }
            match lines[i] {
                None => {
                    proof {
                        lemma_first_error(texts, i + 1);
                    }
                    return Err(PolicyError::Encoding { line: i });
                },
                Some(text) => match line_no_ending(text) {
                    Err(_) => {
                        proof {
                            lemma_first_error(texts, i + 1);
                        }
                        return Err(PolicyError::Syntax { line: i });
                    },
                    Ok((_, None)) => {},
                    Ok((_, Some(rule))) => {
                        router.add_rule(rule);
                    },
                },
            }
            i = i + 1;
        }
        assert(texts.take(n as int) =~= texts);
        Ok(router)
    }

    /// Adds a rule.
    pub fn add_rule(&mut self, rule: Rule)
        ensures
            final(self)@ == rule_added(old(self)@, rule@),
    {
        let Rule { filter, action } = rule;
        let caps = match action {
            RuleAction::Require(caps) => caps,
        };
        match filter {
            RuleFilter::ListenPort(port) => self.listen_port_caps.add(port, caps),
            RuleFilter::Sni(name) => self.sni_caps.add(name, caps),
        }
    }

    /// How many rules there are; no more than the largest number.
    pub fn rule_count(&self) -> (n: usize)
        ensures
            n == if rule_total(self@) <= usize::MAX {
                rule_total(self@) as int
            } else {
                usize::MAX as int
            },
    {
        self.listen_port_caps.rule_count().saturating_add(self.sni_caps.rule_count())
    }
}

/// A router is loaded exactly where each line can be read; otherwise the first
/// line that cannot is told, by its number from zero on.
pub proof fn lemma_when_loaded(lines: Seq<Option<Seq<char>>>)
    requires
        lines.len() <= usize::MAX,
    ensures
        load_result(lines) is Ok <==> forall|i: int|
            0 <= i < lines.len() ==> ((#[trigger] lines[i]) matches Some(text)
                && super::parser::line_result(text) is Some),
        load_result(lines) matches Err(PolicyError::Syntax { line }) ==> line < lines.len()
            && load_result(lines.take(line as int)) is Ok && (lines[line as int] matches Some(text)
            && super::parser::line_result(text) is None),
        load_result(lines) matches Err(PolicyError::Encoding { line }) ==> line < lines.len()
            && load_result(lines.take(line as int)) is Ok && lines[line as int] is None,
    decreases lines.len(),
{
    if lines.len() > 0 {
        let front = lines.drop_last();
        let n = lines.len() - 1;
        lemma_when_loaded(front);
        assert(lines[n] == lines.last());
        assert(lines.take(n) =~= front);
        assert forall|i: int| 0 <= i < n implies front[i] == #[trigger] lines[i] by {}
        if load_result(front) is Err {
            match load_result(front) {
                Err(PolicyError::Syntax { line }) => {
                    assert(lines.take(line as int) =~= front.take(line as int));
                    assert(lines[line as int] == front[line as int]);
                },
                Err(PolicyError::Encoding { line }) => {
                    assert(lines.take(line as int) =~= front.take(line as int));
                    assert(lines[line as int] == front[line as int]);
                },
                _ => {},
            }
        } else {
            assert forall|i: int| 0 <= i < n implies ((#[trigger] lines[i]) matches Some(text)
                && super::parser::line_result(text) is Some) by {
                assert(front[i] == lines[i]);
            }
        }
    }
}

/// A rule on a port says nothing of names, and one on a name nothing of ports.
pub proof fn lemma_kinds_of_rules(
    r: RouterModel,
    port: u16,
    name: Seq<char>,
    caps: Seq<Seq<char>>,
)
    requires
        crate::policy::rules::distinct_keys(r.listen_port),
        crate::policy::rules::distinct_keys(r.sni),
    ensures
        ({
            let by_port = rule_added(
                r,
                super::parser::RuleModel {
                    filter: super::parser::FilterModel::ListenPort(port),
                    caps,
                },
            );
            let by_name = rule_added(
                r,
                super::parser::RuleModel { filter: super::parser::FilterModel::Sni(name), caps },
            );
            &&& by_port.sni == r.sni && by_name.listen_port == r.listen_port
            &&& crate::policy::rules::lookup(by_port.listen_port, port) matches Some(all)
                && all.contains(caps)
            &&& crate::policy::rules::lookup(by_name.sni, name) matches Some(all) && all.contains(
                caps,
            )
        }),
{
    super::table::lemma_lookup_after_require(r.listen_port, port, caps, port);
    super::table::lemma_lookup_after_require(r.sni, name, caps, name);
}

} // verus!
