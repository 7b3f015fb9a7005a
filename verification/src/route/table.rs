//! Requirements by key.

use crate::policy::capabilities::{CapRequirements, CapSet};
use crate::policy::rules::RuleKey;
use crate::text::rest;
use vstd::prelude::*;

verus! {

/// Requirements as sets of alternatives.
pub type Requirements = Set<Seq<Seq<char>>>;

/// Requirements by key. No key is there twice.
#[derive(Debug)]
pub struct RequirementTable<K: RuleKey> {
    entries: Vec<(K, CapRequirements)>,
}

/// The models of the entries of a list.
pub open spec fn entry_models<K: RuleKey>(
    entries: Seq<(K, CapRequirements)>,
) -> Seq<(K::V, Requirements)> {
    entries.map_values(|e: (K, CapRequirements)| (e.0@, e.1@))
}

/// The entries once an alternative was required of a key.
pub open spec fn required<K>(
    entries: Seq<(K, Requirements)>,
    key: K,
    caps: Seq<Seq<char>>,
) -> Seq<(K, Requirements)> {
    match crate::policy::rules::position(entries, key) {
        Some(i) => entries.update(i, (key, entries[i].1.insert(caps))),
        None => entries.push((key, Set::<Seq<Seq<char>>>::empty().insert(caps))),
    }
}

/// How many requirements there are.
pub open spec fn total<K>(entries: Seq<(K, Requirements)>) -> nat
    decreases entries.len(),
{
    if entries.len() == 0 {
        0
    } else {
        total(entries.drop_last()) + entries.last().1.len()
    }
}

/// Requiring something of a key changes what is asked of this key and of no
/// other one, and no key gets two entries.
pub proof fn lemma_lookup_after_require<K>(
    entries: Seq<(K, Requirements)>,
    key: K,
    caps: Seq<Seq<char>>,
    other: K,
)
    requires
        crate::policy::rules::distinct_keys(entries),
    ensures
        crate::policy::rules::distinct_keys(required(entries, key, caps)),
        crate::policy::rules::lookup(required(entries, key, caps), key) == Some(
            crate::policy::rules::lookup(entries, key).unwrap_or(Set::empty()).insert(caps),
        ),
        other != key ==> crate::policy::rules::lookup(required(entries, key, caps), other)
            == crate::policy::rules::lookup(entries, other),
{
    let after = required(entries, key, caps);
    crate::policy::rules::lemma_position(entries, key);
    crate::policy::rules::lemma_position(entries, other);
    assert(crate::policy::rules::distinct_keys(after));
    match crate::policy::rules::position(entries, key) {
        Some(i) => {
            crate::policy::rules::lemma_position_is(after, key, i);
        },
        None => {
            crate::policy::rules::lemma_position_is(after, key, entries.len() as int);
        },
    }
    if other != key {
        match crate::policy::rules::position(entries, other) {
            Some(j) => {
                assert(after[j].0 == other);
                crate::policy::rules::lemma_position_is(after, other, j);
            },
            None => {
                crate::policy::rules::lemma_position(after, other);
                match crate::policy::rules::position(after, other) {
                    Some(j) => {
                        if j < entries.len() {
                            assert(entries[j].0 != other);
                        }
                    },
                    None => {},
                }
            },
        }
    }
}

impl<K: RuleKey> View for RequirementTable<K> {
    type V = Seq<(K::V, Requirements)>;

    closed spec fn view(&self) -> Seq<(K::V, Requirements)> {
        entry_models(self.entries@)
    }
}

fn find_entry<K: RuleKey>(entries: &Vec<(K, CapRequirements)>, key: &K) -> (r: Option<usize>)
    requires
        crate::policy::rules::distinct_keys(entry_models(entries@)),
    ensures
        match r {
            Some(i) => i < entries@.len() && crate::policy::rules::position(
                entry_models(entries@),
                key@,
            ) == Some(i as int),
            None => crate::policy::rules::position(entry_models(entries@), key@) is None,
        },
{
    let ghost model = entry_models(entries@);
    let n = entries.len();
    let mut i: usize = 0;
    while i < n
        invariant
            n == entries@.len(),
            i <= n,
            model == entry_models(entries@),
            crate::policy::rules::distinct_keys(model),
            forall|j: int| 0 <= j < i ==> (#[trigger] model[j]).0 != key@,
        decreases n - i,
    {
        if entries[i].0.same_key(key) {
            proof {
                assert(model[i as int].0 == key@);
                crate::policy::rules::lemma_position_is(model, key@, i as int);
            }
            return Some(i);
        }
        i = i + 1;
    }
    proof {
        crate::policy::rules::lemma_position(model, key@);
    }
    None
}

impl<K: RuleKey> RequirementTable<K> {
    #[verifier::type_invariant]
    closed spec fn inv(self) -> bool {
        crate::policy::rules::distinct_keys(entry_models(self.entries@))
    }

    /// No requirement at all.
    pub fn new() -> (r: RequirementTable<K>)
        ensures
            r@ == Seq::<(K::V, Requirements)>::empty(),
    {
        let r = RequirementTable { entries: Vec::new() };
        assert(r@ =~= Seq::<(K::V, Requirements)>::empty());
        r
    }

    /// Requires one of the capabilities of a key.
    pub fn add(&mut self, key: K, caps: CapSet)
        ensures
            final(self)@ == required(old(self)@, key@, caps@),
            crate::policy::rules::distinct_keys(final(self)@),
    {
        proof {
            use_type_invariant(&*self);
        }
        let mut entries: Vec<(K, CapRequirements)> = Vec::new();
        std::mem::swap(&mut entries, &mut self.entries);
        let ghost before = entry_models(entries@);
        let ghost k = key@;
        let ghost c = caps@;
        proof {
            lemma_lookup_after_require(before, k, c, k);
        }
        match find_entry(&entries, &key) {
            Some(i) => {
                let (found, mut value) = entries.remove(i);
                value.add_caps(caps);
                entries.insert(i, (found, value));
                proof {
                    crate::policy::rules::lemma_position(before, k);
                    assert(found@ == before[i as int].0);
                }
            },
            None => {
                let mut value = CapRequirements::new();
                value.add_caps(caps);
                entries.push((key, value));
            },
        }
        assert(entry_models(entries@) =~= required(before, k, c));
        self.entries = entries;
    }

    /// The requirements of a key.
    pub fn get(&self, key: &K) -> (r: Option<&CapRequirements>)
        ensures
            match r {
                Some(caps) => crate::policy::rules::lookup(self@, key@) == Some(caps@),
                None => crate::policy::rules::lookup(self@, key@) is None,
            },
    {
        proof {
            use_type_invariant(self);
        }
        match find_entry(&self.entries, key) {
            Some(i) => Some(&self.entries[i].1),
            None => None,
        }
    }

    /// How many requirements there are; no more than the largest number.
    pub fn rule_count(&self) -> (n: usize)
        ensures
            n == if total(self@) <= usize::MAX {
                total(self@) as int
            } else {
                usize::MAX as int
            },
    {
        let mut sum: usize = 0;
        let mut i: usize = 0;
        let ghost model = self@;
        while i < self.entries.len()
            invariant
                i <= self.entries@.len(),
                model == entry_models(self.entries@),
                sum == if total(model.take(i as int)) <= usize::MAX {
                    total(model.take(i as int)) as int
                } else {
                    usize::MAX as int
                },
            decreases self.entries@.len() - i,
        {
            let n = self.entries[i].1.len();
            proof {
                assert(model.take(i + 1).drop_last() =~= model.take(i as int));
                assert(model.take(i + 1).last() == model[i as int]);
            }
            sum = if n <= usize::MAX - sum {
                sum + n
            } else {
                usize::MAX
            };
            i = i + 1;
        }
        assert(model.take(i as int) =~= model);
        sum
    }
}

impl<K: RuleKey> Default for RequirementTable<K> {
    /// No requirement at all.
    fn default() -> (r: RequirementTable<K>)
        ensures
            r@ == Seq::<(K::V, Requirements)>::empty(),
    {
        RequirementTable::new()
    }
}

/// The parts of a name that start before character `n`, at its beginning or
/// right behind a dot, and run to its end: the longest first.
pub open spec fn label_starts(name: Seq<char>, n: int) -> Seq<Seq<char>>
    decreases n,
{
    if n <= 0 {
        Seq::empty()
    } else if n == 1 || name[n - 2] == '.' {
        label_starts(name, n - 1).push(name.skip(n - 1))
    } else {
        label_starts(name, n - 1)
    }
}

/// The names whose requirements apply to a domain: itself, each of the domains
/// that it lies in, and the root.
pub open spec fn sni_keys(name: Seq<char>) -> Seq<Seq<char>> {
    label_starts(name, name.len() as int).push("."@)
}

/// All sets of alternatives of some requirements, one after the other.
pub open spec fn alternatives(reqs: Seq<Requirements>) -> Seq<Seq<Seq<char>>>
    decreases reqs.len(),
{
    if reqs.len() == 0 {
        Seq::empty()
    } else {
        alternatives(reqs.drop_last()) + crate::policy::capabilities::in_order(reqs.last())
    }
}

/// All requirements together.
pub open spec fn together(reqs: Seq<Requirements>) -> Requirements
    decreases reqs.len(),
{
    if reqs.len() == 0 {
        Set::empty()
    } else {
        together(reqs.drop_last()).union(reqs.last())
    }
}

/// The models of some requirements.
pub open spec fn models(reqs: Seq<&CapRequirements>) -> Seq<Requirements> {
    reqs.map_values(|r: &CapRequirements| r@)
}

impl RequirementTable<String> {
    /// The requirements of a domain, of those that it lies in, and of the root.
    pub fn get_domain(&self, name: &str) -> (r: Vec<&CapRequirements>)
        ensures
            models(r@) == crate::policy::rules::lookup_all(self@, sni_keys(name@)),
    {
        let n = name.unicode_len();
        let mut r: Vec<&CapRequirements> = Vec::new();
        let mut i: usize = 0;
        assert(models(r@) =~= crate::policy::rules::lookup_all(
            self@,
            Seq::<Seq<char>>::empty(),
        ));
        while i < n
            invariant
                n == name@.len(),
                i <= n,
                models(r@) == crate::policy::rules::lookup_all(
                    self@,
                    label_starts(name@, i as int),
                ),
            decreases n - i,
        {
            if i == 0 || name.get_char(i - 1) == '.' {
                let key = rest(name, i).to_owned();
                proof {
                    let keys = label_starts(name@, i + 1);
                    assert(keys =~= label_starts(name@, i as int).push(key@));
                    assert(keys.drop_last() =~= label_starts(name@, i as int));
                }
                if let Some(found) = self.get(&key) {
                    r.push(found);
                }
                assert(models(r@) =~= crate::policy::rules::lookup_all(
                    self@,
                    label_starts(name@, i + 1),
                ));
            }
            i = i + 1;
        }
        let root = ".".to_owned();
        proof {
            assert(sni_keys(name@).drop_last() =~= label_starts(name@, n as int));
        }
        if let Some(found) = self.get(&root) {
            r.push(found);
        }
        assert(models(r@) =~= crate::policy::rules::lookup_all(self@, sni_keys(name@)));
        r
    }
}

// ---- laws ----

proof fn lemma_starts_listed(name: Seq<char>, n: int, key: Seq<char>)
    requires
        0 <= n <= name.len(),
    ensures
        label_starts(name, n).contains(key) <==> exists|i: int|
            0 <= i < n && key == #[trigger] name.skip(i) && (i == 0 || name[i - 1] == '.'),
    decreases n,
{
    let starts = label_starts(name, n);
    if n > 0 {
        lemma_starts_listed(name, n - 1, key);
        let fewer = label_starts(name, n - 1);
        if starts.contains(key) {
            let k = choose|k: int| 0 <= k < starts.len() && starts[k] == key;
            if k < fewer.len() {
                assert(fewer[k] == key);
                assert(fewer.contains(key));
            } else {
                assert(key == name.skip(n - 1));
            }
        }
        if exists|i: int|
            0 <= i < n && key == #[trigger] name.skip(i) && (i == 0 || name[i - 1] == '.') {
            let i = choose|i: int|
                0 <= i < n && key == #[trigger] name.skip(i) && (i == 0 || name[i - 1] == '.');
            if i < n - 1 {
                assert(fewer.contains(key));
                let k = choose|k: int| 0 <= k < fewer.len() && fewer[k] == key;
                assert(starts[k] == key);
            } else {
                assert(starts[starts.len() - 1] == key);
            }
        }
    }
}

/// The requirements of a domain apply to a name exactly where the name is the
/// domain or ends with a dot and the domain, and those of the root to every name.
pub proof fn lemma_domains_of_name(name: Seq<char>, domain: Seq<char>)
    requires
        domain.len() > 0,
        domain != seq!['.'],
    ensures
        sni_keys(name).contains(domain) <==> name == domain || (name.len() > domain.len()
            && name.skip(name.len() - domain.len()) == domain && name[name.len() - domain.len() - 1]
            == '.'),
        sni_keys(name).last() == seq!['.'],
{
    reveal_strlit(".");
    assert("."@ =~= seq!['.']);
    let keys = sni_keys(name);
    let starts = label_starts(name, name.len() as int);
    lemma_starts_listed(name, name.len() as int, domain);
    assert(name.skip(0) =~= name);
    if keys.contains(domain) {
        let k = choose|k: int| 0 <= k < keys.len() && keys[k] == domain;
        assert(k < starts.len());
        assert(starts[k] == domain);
        assert(starts.contains(domain));
        let i = choose|i: int|
            0 <= i < name.len() && domain == #[trigger] name.skip(i) && (i == 0 || name[i - 1]
                == '.');
        assert(domain.len() == name.len() - i);
    }
    if name == domain || (name.len() > domain.len() && name.skip(name.len() - domain.len())
        == domain && name[name.len() - domain.len() - 1] == '.') {
        let i = name.len() - domain.len();
        assert(domain == name.skip(i));
        assert(starts.contains(domain));
        let k = choose|k: int| 0 <= k < starts.len() && starts[k] == domain;
        assert(keys[k] == domain);
    }
}

/// What is required together is what one of the requirements asks for, and
/// nothing else.
pub proof fn lemma_required_together(reqs: Seq<Requirements>, caps: Seq<Seq<char>>)
    ensures
        together(reqs).contains(caps) <==> exists|i: int|
            0 <= i < reqs.len() && (#[trigger] reqs[i]).contains(caps),
    decreases reqs.len(),
{
    if reqs.len() > 0 {
        let front = reqs.drop_last();
        lemma_required_together(front, caps);
        assert(reqs[reqs.len() - 1] == reqs.last());
        if exists|i: int| 0 <= i < front.len() && (#[trigger] front[i]).contains(caps) {
            let i = choose|i: int| 0 <= i < front.len() && (#[trigger] front[i]).contains(caps);
            assert(reqs[i] == front[i]);
        }
        if exists|i: int| 0 <= i < reqs.len() && (#[trigger] reqs[i]).contains(caps) {
            let i = choose|i: int| 0 <= i < reqs.len() && (#[trigger] reqs[i]).contains(caps);
            if i < front.len() {
                assert(reqs[i] == front[i]);
            }
        }
    }
}

/// The first thing that is required of a key counts one more.
pub proof fn lemma_requirements_are_counted<K>(
    entries: Seq<(K, Requirements)>,
    key: K,
    caps: Seq<Seq<char>>,
)
    requires
        forall|i: int| 0 <= i < entries.len() ==> (#[trigger] entries[i]).0 != key,
    ensures
        total(required(entries, key, caps)) == total(entries) + 1,
        total(Seq::<(K, Requirements)>::empty()) == 0,
{
    crate::policy::rules::lemma_position(entries, key);
    assert(required(entries, key, caps).drop_last() =~= entries);
}

} // verus!
