//! Rule sets: which action goes with which property of a connection.

use super::action::Action;
use super::prefix::{new_table, table_get, table_insert, table_matches, NetKey};
use crate::text::rest;
use ip_network_table_deps_treebitmap::IpLookupTable;
use vstd::prelude::*;

verus! {

/// Where a key stands in a list of entries.
pub open spec fn position<K, V>(entries: Seq<(K, V)>, key: K) -> Option<int>
    decreases entries.len(),
{
    if entries.len() == 0 {
        None
    } else if entries.last().0 == key {
        Some(entries.len() - 1)
    } else {
        position(entries.drop_last(), key)
    }
}

/// What a key has.
pub open spec fn lookup<K, V>(entries: Seq<(K, V)>, key: K) -> Option<V> {
    match position(entries, key) {
        Some(i) => Some(entries[i].1),
        None => None,
    }
}

/// The entries once an action was added for a key: it is combined with the
/// action that the key has, or becomes a new entry.
pub open spec fn added<K>(
    entries: Seq<(K, super::action::ActionModel)>,
    key: K,
    action: super::action::ActionModel,
) -> Seq<(K, super::action::ActionModel)> {
    match position(entries, key) {
        Some(i) => entries.update(i, (key, super::action::combine(entries[i].1, action))),
        None => entries.push(
            (key, super::action::combine(super::action::no_requirement(), action)),
        ),
    }
}

/// Whether no key has two entries.
pub open spec fn distinct_keys<K, V>(entries: Seq<(K, V)>) -> bool {
    forall|i: int, j: int|
        0 <= i < j < entries.len() ==> (#[trigger] entries[i]).0 != (#[trigger] entries[j]).0
}

/// What some keys have, in the order of the keys.
pub open spec fn lookup_all<K, V>(entries: Seq<(K, V)>, keys: Seq<K>) -> Seq<V>
    decreases keys.len(),
{
    if keys.len() == 0 {
        Seq::empty()
    } else {
        let front = lookup_all(entries, keys.drop_last());
        match lookup(entries, keys.last()) {
            Some(a) => front.push(a),
            None => front,
        }
    }
}

/// How many rules the actions of some entries stand for.
pub open spec fn total_size<K>(entries: Seq<(K, super::action::ActionModel)>) -> nat
    decreases entries.len(),
{
    if entries.len() == 0 {
        0
    } else {
        total_size(entries.drop_last()) + super::action::action_size(entries.last().1)
    }
}

/// The models of some actions.
pub open spec fn models(actions: Seq<&Action>) -> Seq<super::action::ActionModel> {
    actions.map_values(|a: &Action| a@)
}

/// A key is found at the last entry that has it.
pub proof fn lemma_position<K, V>(entries: Seq<(K, V)>, key: K)
    ensures
        match position(entries, key) {
            Some(i) => 0 <= i < entries.len() && entries[i].0 == key,
            None => forall|i: int| 0 <= i < entries.len() ==> (#[trigger] entries[i]).0 != key,
        },
    decreases entries.len(),
{
    if entries.len() > 0 && entries.last().0 != key {
        lemma_position(entries.drop_last(), key);
        assert forall|i: int|
            position(entries, key) is None && 0 <= i < entries.len() implies (
        #[trigger] entries[i]).0 != key by {
            if i < entries.len() - 1 {
                assert(entries.drop_last()[i] == entries[i]);
            }
        }
    }
}

/// Where no key has two entries, a key is found at the only entry that has it.
pub proof fn lemma_position_is<K, V>(entries: Seq<(K, V)>, key: K, i: int)
    requires
        distinct_keys(entries),
        0 <= i < entries.len(),
        entries[i].0 == key,
    ensures
        position(entries, key) == Some(i),
{
    lemma_position(entries, key);
    match position(entries, key) {
        Some(j) => {
            if j < i {
                assert(entries[j].0 != entries[i].0);
            } else if i < j {
                assert(entries[i].0 != entries[j].0);
            }
        },
        None => {
            assert(entries[i].0 != key);
        },
    }
}

/// Adding an action for a key changes what is found for this key and for no
/// other one, and no key gets two entries.
pub proof fn lemma_lookup_after_add<K>(
    entries: Seq<(K, super::action::ActionModel)>,
    key: K,
    action: super::action::ActionModel,
    other: K,
)
    requires
        distinct_keys(entries),
    ensures
        distinct_keys(added(entries, key, action)),
        lookup(added(entries, key, action), key) == Some(
            super::action::combine(
                lookup(entries, key).unwrap_or(super::action::no_requirement()),
                action,
            ),
        ),
        other != key ==> lookup(added(entries, key, action), other) == lookup(entries, other),
{
    let after = added(entries, key, action);
    lemma_position(entries, key);
    lemma_position(entries, other);
    assert(distinct_keys(after));
    match position(entries, key) {
        Some(i) => {
            lemma_position_is(after, key, i);
        },
        None => {
            lemma_position_is(after, key, entries.len() as int);
        },
    }
    if other != key {
        match position(entries, other) {
            Some(j) => {
                assert(after[j].0 == other);
                lemma_position_is(after, other, j);
            },
            None => {
                lemma_position(after, other);
                match position(after, other) {
                    Some(j) => {
                        if j < entries.len() {
                            assert(entries[j].0 != other);
                        }
                    },
                    None => {},
                }
            },
        }
    }
}

/// What actions are kept by.
pub trait RuleKey: View + Sized {
    /// Whether both are the same key.
    fn same_key(&self, other: &Self) -> (r: bool)
        ensures
            r == (self@ == other@),
    ;
}

impl RuleKey for u16 {
    fn same_key(&self, other: &u16) -> (r: bool) {
        *self == *other
    }
}

impl RuleKey for String {
    fn same_key(&self, other: &String) -> (r: bool) {
        *self == *other
    }
}

/// Actions by key. No key is there twice.
#[derive(Debug)]
pub struct RuleSet<K: RuleKey> {
    entries: Vec<(K, Action)>,
}

/// Actions by the port that a connection came in at.
pub type ListenPortRuleSet = RuleSet<u16>;

/// Actions by the domain that a connection goes to.
pub type DstDomainRuleSet = RuleSet<String>;

/// The models of the entries of a list.
pub open spec fn entry_models<K: RuleKey>(
    entries: Seq<(K, Action)>,
) -> Seq<(K::V, super::action::ActionModel)> {
    entries.map_values(|e: (K, Action)| (e.0@, e.1@))
}

impl<K: RuleKey> View for RuleSet<K> {
    type V = Seq<(K::V, super::action::ActionModel)>;

    closed spec fn view(&self) -> Seq<(K::V, super::action::ActionModel)> {
        entry_models(self.entries@)
    }
}

fn find_entry<K: RuleKey>(entries: &Vec<(K, Action)>, key: &K) -> (r: Option<usize>)
    requires
        distinct_keys(entry_models(entries@)),
    ensures
        match r {
            Some(i) => i < entries@.len() && position(entry_models(entries@), key@) == Some(
                i as int,
            ),
            None => position(entry_models(entries@), key@) is None,
        },
{
    let ghost model = entry_models(entries@);
    let n = entries.len();
    let mut i: usize = 0;
    while i < n
        invariant
            n == entries@.len(),
            i <= n,
            model == entry_models(entries@),
            distinct_keys(model),
            forall|j: int| 0 <= j < i ==> (#[trigger] model[j]).0 != key@,
        decreases n - i,
    {
        if entries[i].0.same_key(key) {
            proof {
                assert(model[i as int].0 == key@);
                lemma_position_is(model, key@, i as int);
            }
            return Some(i);
        }
        i = i + 1;
    }
    proof {
        lemma_position(model, key@);
    }
    None
}

impl<K: RuleKey> RuleSet<K> {
    #[verifier::type_invariant]
    closed spec fn inv(self) -> bool {
        distinct_keys(entry_models(self.entries@))
    }

    /// No rule at all.
    pub fn new() -> (r: RuleSet<K>)
        ensures
            r@ == Seq::<(K::V, super::action::ActionModel)>::empty(),
    {
        let r = RuleSet { entries: Vec::new() };
        assert(r@ =~= Seq::<(K::V, super::action::ActionModel)>::empty());
        r
    }

    /// Adds an action for a key.
    pub fn add(&mut self, key: K, action: Action)
        ensures
            final(self)@ == added(old(self)@, key@, action@),
            distinct_keys(final(self)@),
    {
        proof {
            use_type_invariant(&*self);
        }
        let mut entries: Vec<(K, Action)> = Vec::new();
        std::mem::swap(&mut entries, &mut self.entries);
        let ghost before = entry_models(entries@);
        let ghost k = key@;
        let ghost a = action@;
        proof {
            lemma_lookup_after_add(before, k, a, k);
        }
        match find_entry(&entries, &key) {
            Some(i) => {
                let (found, mut value) = entries.remove(i);
                value.extend(action);
                entries.insert(i, (found, value));
                proof {
                    lemma_position(before, k);
                    assert(found@ == before[i as int].0);
                }
            },
            None => {
                let mut value = Action::default();
                value.extend(action);
                entries.push((key, value));
            },
        }
        assert(entry_models(entries@) =~= added(before, k, a));
        self.entries = entries;
    }

    /// The action of a key.
    pub fn get(&self, key: &K) -> (r: Option<&Action>)
        ensures
            match r {
                Some(a) => lookup(self@, key@) == Some(a@),
                None => lookup(self@, key@) is None,
            },
    {
        proof {
            use_type_invariant(self);
        }
        match find_entry(&self.entries, key) {
            Some(i) => Some(&self.entries[i].1),
            None => None,
        }
    }

    /// How many rules there are; no more than the largest number.
    pub fn rule_count(&self) -> (n: usize)
        ensures
            n == if total_size(self@) <= usize::MAX {
                total_size(self@) as int
            } else {
                usize::MAX as int
            },
    {
        let mut sum: usize = 0;
        let mut i: usize = 0;
        let ghost model = self@;
        while i < self.entries.len()
            invariant
                i <= self.entries@.len(),
                model == entry_models(self.entries@),
                sum == if total_size(model.take(i as int)) <= usize::MAX {
                    total_size(model.take(i as int)) as int
                } else {
                    usize::MAX as int
                },
            decreases self.entries@.len() - i,
        {
            let n = self.entries[i].1.len();
            proof {
                assert(model.take(i + 1).drop_last() =~= model.take(i as int));
                assert(model.take(i + 1).last() == model[i as int]);
            }
            sum = if n <= usize::MAX - sum {
                sum + n
            } else {
                usize::MAX
            };
            i = i + 1;
        }
        assert(model.take(i as int) =~= model);
        sum
    }
}

impl<K: RuleKey> Default for RuleSet<K> {
    /// No rule at all.
    fn default() -> (r: RuleSet<K>)
        ensures
            r@ == Seq::<(K::V, super::action::ActionModel)>::empty(),
    {
        RuleSet::new()
    }
}

/// A name without the dots at its end.
pub open spec fn without_trailing_dots(name: Seq<char>) -> Seq<char>
    decreases name.len(),
{
    if name.len() > 0 && name.last() == '.' {
        without_trailing_dots(name.drop_last())
    } else {
        name
    }
}

/// The parts of a name that start at character `i` or later, at its beginning
/// or right behind a dot, and run to its end: the shortest first.
pub open spec fn suffixes(name: Seq<char>, i: int) -> Seq<Seq<char>>
    decreases name.len() + 1 - i,
{
    if i > name.len() || i < 0 {
        Seq::empty()
    } else {
        let shorter = suffixes(name, i + 1);
        if i == 0 || name[i - 1] == '.' {
            shorter.push(name.skip(i))
        } else {
            shorter
        }
    }
}

/// The names whose rules apply to a domain: the root, and then each of the
/// domains that it lies in, down to itself.
pub open spec fn domain_keys(name: Seq<char>) -> Seq<Seq<char>> {
    seq!["."@] + suffixes(without_trailing_dots(name), 0)
}

/// The rules of a domain apply to it and to each of its subdomains, whether or
/// not a dot is written at the end.
pub proof fn lemma_domain_and_subdomains(domain: Seq<char>, label: Seq<char>)
    requires
        domain.len() > 0,
        domain.last() != '.',
    ensures
        domain_keys(domain).contains(domain),
        domain_keys(label.push('.') + domain).contains(domain),
        domain_keys(domain.push('.')) == domain_keys(domain),
{
    lemma_suffix_listed(domain, 0, 0);
    assert(domain.skip(0) =~= domain);
    lemma_in_domain_keys(domain, domain);
    let sub = label.push('.') + domain;
    let n = label.len() as int + 1;
    assert(sub.last() == domain.last());
    assert(sub[n - 1] == '.');
    lemma_suffix_listed(sub, 0, n);
    assert(sub.skip(n) =~= domain);
    lemma_in_domain_keys(sub, domain);
    assert(domain.push('.').drop_last() =~= domain);
}

proof fn lemma_suffix_behind_dot(name: Seq<char>, i: int, k: int) -> (n: int)
    requires
        0 <= i,
        0 <= k < suffixes(name, i).len(),
    ensures
        i <= n <= name.len(),
        suffixes(name, i)[k] == name.skip(n),
        n == 0 || name[n - 1] == '.',
    decreases name.len() + 1 - i,
{
    let shorter = suffixes(name, i + 1);
    if k < shorter.len() {
        assert(suffixes(name, i)[k] == shorter[k]);
        lemma_suffix_behind_dot(name, i + 1, k)
    } else {
        i
    }
}

proof fn lemma_suffixes_grow(name: Seq<char>, i: int, k: int, l: int)
    requires
        0 <= i,
        0 <= k < l < suffixes(name, i).len(),
    ensures
        suffixes(name, i)[k].len() < suffixes(name, i)[l].len(),
    decreases name.len() + 1 - i,
{
    let shorter = suffixes(name, i + 1);
    let all = suffixes(name, i);
    assert(all[k] == shorter[k]);
    if l < shorter.len() {
        assert(all[l] == shorter[l]);
        lemma_suffixes_grow(name, i + 1, k, l);
    } else {
        let n = lemma_suffix_behind_dot(name, i + 1, k);
    }
}

/// Each name whose rules apply to a domain is the root, the domain itself, or
/// what follows one of the dots in it. The rules of the root come first, and
/// those of a domain before those of its subdomains.
pub proof fn lemma_keys_start_at_labels(name: Seq<char>, k: int, l: int)
    requires
        0 <= k < l < domain_keys(name).len(),
        name.len() > 0,
        name.last() != '.',
    ensures
        domain_keys(name)[0] == seq!['.'],
        ({
            let key = domain_keys(name)[l];
            let n = name.len() - key.len();
            &&& 0 <= n
            &&& key == name.skip(n)
            &&& n == 0 || name[n - 1] == '.'
        }),
        k > 0 ==> domain_keys(name)[k].len() < domain_keys(name)[l].len(),
{
    reveal_strlit(".");
    assert("."@ =~= seq!['.']);
    assert(without_trailing_dots(name) == name);
    let s = suffixes(name, 0);
    assert(domain_keys(name)[l] == s[l - 1]);
    let n = lemma_suffix_behind_dot(name, 0, l - 1);
    if k > 0 {
        assert(domain_keys(name)[k] == s[k - 1]);
        lemma_suffixes_grow(name, 0, k - 1, l - 1);
    }
}

/// The rules of a domain apply to a name exactly where the name is the domain or
/// ends with a dot and the domain: a name that merely ends with the same letters
/// is none of its subdomains.
pub proof fn lemma_rules_stay_in_their_domain(domain: Seq<char>, name: Seq<char>)
    requires
        domain.len() > 0,
        domain.last() != '.',
        name.len() > 0,
        name.last() != '.',
    ensures
        domain_keys(name).contains(domain) <==> name == domain || (name.len() > domain.len()
            && name.skip(name.len() - domain.len()) == domain && name[name.len() - domain.len() - 1]
            == '.'),
{
    let keys = domain_keys(name);
    reveal_strlit(".");
    if keys.contains(domain) {
        let l = choose|l: int| 0 <= l < keys.len() && keys[l] == domain;
        if l == 0 {
            assert(domain[0] == '.');
        } else {
            lemma_keys_start_at_labels(name, 0, l);
            assert(name.skip(0) =~= name);
        }
    }
    if name == domain {
        lemma_domain_and_subdomains(domain, Seq::empty());
    } else if name.len() > domain.len() && name.skip(name.len() - domain.len()) == domain
        && name[name.len() - domain.len() - 1] == '.' {
        let label = name.take(name.len() - domain.len() - 1);
        lemma_domain_and_subdomains(domain, label);
        assert(label.push('.') + domain =~= name);
    }
}

/// The rules of a domain do not apply to a name that is made by writing letters
/// right before it.
pub proof fn lemma_no_rule_for_longer_label(domain: Seq<char>, label: Seq<char>)
    requires
        domain.len() > 0,
        domain.last() != '.',
        label.len() > 0,
        label.last() != '.',
    ensures
        !domain_keys(label + domain).contains(domain),
{
    let name = label + domain;
    assert(name.last() == domain.last());
    assert(name[label.len() - 1] == label.last());
    lemma_rules_stay_in_their_domain(domain, name);
}

/// How many dots stand at the end of a name does not matter, and the rules of
/// the root apply to every name.
pub proof fn lemma_dots_at_the_end(name: Seq<char>)
    ensures
        domain_keys(name.push('.')) == domain_keys(name),
        domain_keys(name).contains(seq!['.']),
{
    reveal_strlit(".");
    assert(name.push('.').drop_last() =~= name);
    assert("."@ =~= seq!['.']);
    assert(domain_keys(name)[0] == seq!['.']);
}

proof fn lemma_in_domain_keys(name: Seq<char>, key: Seq<char>)
    requires
        suffixes(without_trailing_dots(name), 0).contains(key),
    ensures
        domain_keys(name).contains(key),
{
    let s = suffixes(without_trailing_dots(name), 0);
    let i = choose|i: int| 0 <= i < s.len() && s[i] == key;
    assert(domain_keys(name)[i + 1] == key);
}

proof fn lemma_suffix_listed(name: Seq<char>, i: int, n: int)
    requires
        0 <= i <= n <= name.len(),
        n == 0 || name[n - 1] == '.',
    ensures
        suffixes(name, i).contains(name.skip(n)),
    decreases n - i,
{
    let s = suffixes(name, i);
    if i == n {
        assert(s[s.len() - 1] == name.skip(n));
    } else {
        lemma_suffix_listed(name, i + 1, n);
        let t = suffixes(name, i + 1);
        let k = choose|k: int| 0 <= k < t.len() && t[k] == name.skip(n);
        assert(s[k] == name.skip(n));
    }
}

fn trim_dots<'a>(name: &'a str) -> (r: &'a str)
    ensures
        r@ == without_trailing_dots(name@),
    decreases name@.len(),
{
    let n = name.unicode_len();
    if n > 0 && name.get_char(n - 1) == '.' {
        let t = crate::text::front(name, n - 1);
        assert(t@ =~= name@.drop_last());
        trim_dots(t)
    } else {
        name
    }
}

impl RuleSet<String> {
    /// The actions that apply to a domain, from those of the root to those of
    /// the domain itself.
    pub fn get_recursive(&self, name: &str) -> (r: Vec<&Action>)
        ensures
            models(r@) == lookup_all(self@, domain_keys(name@)),
    {
        let name = trim_dots(name);
        let n = name.unicode_len();
        let mut r: Vec<&Action> = Vec::new();
        let ghost mut keys = seq!["."@];
        let root = ".".to_owned();
        proof {
            assert(keys.drop_last() =~= Seq::<Seq<char>>::empty());
            assert(lookup_all(self@, keys.drop_last()) =~= Seq::<
                super::action::ActionModel,
            >::empty());
        }
        if let Some(a) = self.get(&root) {
            r.push(a);
        }
        assert(models(r@) =~= lookup_all(self@, keys));
        let mut i: usize = n;
        let mut done = false;
        assert(keys + suffixes(name@, n + 1) =~= keys);
        while !done
            invariant
                n == name@.len(),
                i <= n,
                done ==> i == 0,
                keys == seq!["."@] + suffixes(name@, if done {
                    0
                } else {
                    i + 1
                }),
                models(r@) == lookup_all(self@, keys),
            decreases i, if done { 0int } else { 1int },
        {
            if i == 0 || name.get_char(i - 1) == '.' {
                let key = rest(name, i).to_owned();
                let ghost before = keys;
                proof {
                    keys = keys.push(key@);
                    assert(keys.drop_last() =~= before);
                    assert(keys =~= seq!["."@] + suffixes(name@, i as int));
                }
                if let Some(a) = self.get(&key) {
                    r.push(a);
                }
                assert(models(r@) =~= lookup_all(self@, keys));
            }
            if i == 0 {
                done = true;
            } else {
                i = i - 1;
            }
        }
        r
    }
}

/// Actions by network. No network is there twice.
pub struct IpRuleSet {
    table: IpLookupTable<NetKey, usize>,
    actions: Vec<Action>,
    keys: Ghost<Seq<(u128, nat)>>,
}

impl View for IpRuleSet {
    type V = Seq<((u128, nat), super::action::ActionModel)>;

    closed spec fn view(&self) -> Seq<((u128, nat), super::action::ActionModel)> {
        network_entries(self.keys@, self.actions@)
    }
}

/// The models of actions with their networks.
pub open spec fn network_entries(
    keys: Seq<(u128, nat)>,
    actions: Seq<Action>,
) -> Seq<((u128, nat), super::action::ActionModel)> {
    Seq::new(actions.len(), |i: int| (keys[i], actions[i]@))
}

/// Whether a table gives each network its place in a list.
pub open spec fn table_lists(
    table: IpLookupTable<NetKey, usize>,
    keys: Seq<(u128, nat)>,
) -> bool {
    &&& keys.no_duplicates()
    &&& forall|key: (u128, nat)| #[trigger]
        super::prefix::prefixes(table).contains_key(key) ==> {
            &&& super::prefix::prefixes(table)[key] < keys.len()
            &&& keys[super::prefix::prefixes(table)[key] as int] == key
        }
    &&& forall|i: int| 0 <= i < keys.len() ==> #[trigger] super::prefix::prefixes(
        table,
    ).contains_key(keys[i])
}

/// The networks shorter than `n` bits that an address lies in, the largest
/// first.
pub open spec fn networks_around(bits: u128, n: nat) -> Seq<(u128, nat)>
    decreases n,
{
    if n == 0 {
        Seq::empty()
    } else {
        networks_around(bits, (n - 1) as nat).push(
            (super::prefix::network(bits, (n - 1) as nat), (n - 1) as nat),
        )
    }
}

proof fn lemma_matching_actions(
    table: IpLookupTable<NetKey, usize>,
    keys: Seq<(u128, nat)>,
    actions: Seq<Action>,
    bits: u128,
    n: nat,
)
    requires
        table_lists(table, keys),
        keys.len() == actions.len(),
    ensures
        ({
            let found = super::prefix::matching(super::prefix::prefixes(table), bits, n);
            let entries = network_entries(keys, actions);
            &&& forall|i: int| 0 <= i < found.len() ==> (#[trigger] found[i]) < actions.len()
            &&& found.map_values(|i: usize| actions[i as int]@) == lookup_all(
                entries,
                networks_around(bits, n),
            )
        }),
    decreases n,
{
    let entries = network_entries(keys, actions);
    let found = super::prefix::matching(super::prefix::prefixes(table), bits, n);
    let pick = |i: usize| actions[i as int]@;
    if n > 0 {
        let len = (n - 1) as nat;
        let key = (super::prefix::network(bits, len), len);
        let shorter = super::prefix::matching(super::prefix::prefixes(table), bits, len);
        lemma_matching_actions(table, keys, actions, bits, len);
        let around = networks_around(bits, n);
        assert(around.drop_last() =~= networks_around(bits, len));
        assert(around.last() == key);
        assert(distinct_keys(entries)) by {
            assert forall|i: int, j: int| 0 <= i < j < entries.len() implies (
            #[trigger] entries[i]).0 != (#[trigger] entries[j]).0 by {
                assert(keys[i] != keys[j]);
            }
        }
        if super::prefix::prefixes(table).contains_key(key) {
            let at = super::prefix::prefixes(table)[key];
            assert(entries[at as int].0 == key);
            lemma_position_is(entries, key, at as int);
            assert(found.map_values(pick) =~= shorter.map_values(pick).push(pick(at)));
        } else {
            lemma_position(entries, key);
            match position(entries, key) {
                Some(i) => {
                    assert(super::prefix::prefixes(table).contains_key(keys[i]));
                },
                None => {},
            }
        }
    } else {
        assert(found.map_values(pick) =~= lookup_all(entries, networks_around(bits, n)));
    }
}

impl IpRuleSet {
    #[verifier::type_invariant]
    closed spec fn inv(self) -> bool {
        &&& self.keys@.len() == self.actions@.len()
        &&& table_lists(self.table, self.keys@)
    }

    /// No rule at all.
    pub fn new() -> (r: IpRuleSet)
        ensures
            r@ == Seq::<((u128, nat), super::action::ActionModel)>::empty(),
    {
        let table = new_table();
        let r = IpRuleSet { table, actions: Vec::new(), keys: Ghost(Seq::empty()) };
        assert(r@ =~= Seq::<((u128, nat), super::action::ActionModel)>::empty());
        r
    }

    /// Adds an action for a network.
    pub fn add(&mut self, bits: u128, len: u8, action: Action)
        requires
            len <= 128,
            super::prefix::is_network(bits, len as nat),
        ensures
            final(self)@ == added(old(self)@, (bits, len as nat), action@),
            distinct_keys(final(self)@),
    {
        proof {
            use_type_invariant(&*self);
        }
        let mut other = IpRuleSet::new();
        std::mem::swap(&mut other, self);
        proof {
            use_type_invariant(&other);
        }
        let ghost key = (bits, len as nat);
        let ghost a = action@;
        let IpRuleSet { mut table, mut actions, keys: Ghost(keys) } = other;
        let ghost before = network_entries(keys, actions@);
        let ghost mut after_keys = keys;
        proof {
            assert(distinct_keys(before)) by {
                assert forall|i: int, j: int| 0 <= i < j < before.len() implies (
                #[trigger] before[i]).0 != (#[trigger] before[j]).0 by {
                    assert(keys[i] != keys[j]);
                }
            }
            lemma_lookup_after_add(before, key, a, key);
            lemma_position(before, key);
        }
        match table_get(&table, NetKey { bits }, len) {
            Some(i) => {
                proof {
                    assert(before[i as int].0 == key);
                    lemma_position_is(before, key, i as int);
                }
                let mut value = actions.remove(i);
                value.extend(action);
                actions.insert(i, value);
            },
            None => {
                let n = actions.len();
                let mut value = Action::default();
                value.extend(action);
                table_insert(&mut table, NetKey { bits }, len, n);
                actions.push(value);
                proof {
                    match position(before, key) {
                        Some(j) => {
                            assert(super::prefix::prefixes(other.table).contains_key(keys[j]));
                        },
                        None => {},
                    }
                    after_keys = keys.push(key);
                    assert(!keys.contains(key)) by {
                        if keys.contains(key) {
                            let j = choose|j: int| 0 <= j < keys.len() && keys[j] == key;
                            assert(super::prefix::prefixes(other.table).contains_key(keys[j]));
                        }
                    }
                    assert forall|i: int| 0 <= i < after_keys.len() implies
                        #[trigger] super::prefix::prefixes(table).contains_key(after_keys[i]) by {
                        if i < keys.len() {
                            assert(super::prefix::prefixes(other.table).contains_key(keys[i]));
                        }
                    }
                }
            },
        }
        assert(network_entries(after_keys, actions@) =~= added(before, key, a));
        *self = IpRuleSet { table, actions, keys: Ghost(after_keys) };
    }

    /// The actions of the networks that an address lies in, the largest network
    /// first.
    pub fn get(&self, bits: u128) -> (r: Vec<&Action>)
        ensures
            models(r@) == lookup_all(self@, networks_around(bits, 129)),
    {
        proof {
            use_type_invariant(self);
            lemma_matching_actions(self.table, self.keys@, self.actions@, bits, 129);
        }
        let found = table_matches(&self.table, NetKey { bits });
        let n = found.len();
        let mut r: Vec<&Action> = Vec::new();
        let mut i: usize = 0;
        while i < n
            invariant
                n == found@.len(),
                i <= n,
                r@.len() == i,
                forall|j: int| 0 <= j < n ==> (#[trigger] found@[j]) < self.actions@.len(),
                forall|j: int|
                    0 <= j < i ==> (#[trigger] r@[j])@ == self.actions@[found@[j] as int]@,
            decreases n - i,
        {
            r.push(&self.actions[found[i]]);
            i = i + 1;
        }
        assert(models(r@) =~= found@.map_values(|i: usize| self.actions@[i as int]@));
        r
    }

    /// How many rules there are; no more than the largest number.
    pub fn rule_count(&self) -> (n: usize)
        ensures
            n == if total_size(self@) <= usize::MAX {
                total_size(self@) as int
            } else {
                usize::MAX as int
            },
    {
        let mut sum: usize = 0;
        let mut i: usize = 0;
        let ghost model = self@;
        while i < self.actions.len()
            invariant
                i <= self.actions@.len(),
                model == network_entries(self.keys@, self.actions@),
                sum == if total_size(model.take(i as int)) <= usize::MAX {
                    total_size(model.take(i as int)) as int
                } else {
                    usize::MAX as int
                },
            decreases self.actions@.len() - i,
        {
            let n = self.actions[i].len();
            proof {
                assert(model.take(i + 1).drop_last() =~= model.take(i as int));
                assert(model.take(i + 1).last() == model[i as int]);
            }
            sum = if n <= usize::MAX - sum {
                sum + n
            } else {
                usize::MAX
            };
            i = i + 1;
        }
        assert(model.take(i as int) =~= model);
        sum
    }
}

impl Default for IpRuleSet {
    /// No rule at all.
    fn default() -> (r: IpRuleSet)
        ensures
            r@ == Seq::<((u128, nat), super::action::ActionModel)>::empty(),
    {
        IpRuleSet::new()
    }
}

// ---- laws on what is found ----

/// What is found for some keys is what each of them has, and nothing else.
pub proof fn lemma_found_for_keys<K, V>(entries: Seq<(K, V)>, keys: Seq<K>, v: V)
    ensures
        lookup_all(entries, keys).contains(v) <==> exists|i: int|
            0 <= i < keys.len() && lookup(entries, #[trigger] keys[i]) == Some(v),
    decreases keys.len(),
{
    if keys.len() > 0 {
        let front = keys.drop_last();
        let before = lookup_all(entries, front);
        let all = lookup_all(entries, keys);
        lemma_found_for_keys(entries, front, v);
        assert(keys[keys.len() - 1] == keys.last());
        if all.contains(v) {
            let k = choose|k: int| 0 <= k < all.len() && all[k] == v;
            if k < before.len() {
                assert(before[k] == v);
                assert(before.contains(v));
                let i = choose|i: int|
                    0 <= i < front.len() && lookup(entries, #[trigger] front[i]) == Some(v);
                assert(front[i] == keys[i]);
            }
        }
        if exists|i: int| 0 <= i < keys.len() && lookup(entries, #[trigger] keys[i]) == Some(v) {
            let i = choose|i: int|
                0 <= i < keys.len() && lookup(entries, #[trigger] keys[i]) == Some(v);
            if i < front.len() {
                assert(front[i] == keys[i]);
                assert(before.contains(v));
                let k = choose|k: int| 0 <= k < before.len() && before[k] == v;
                assert(all[k] == v);
            } else {
                assert(all[all.len() - 1] == v);
            }
        }
    }
}

/// What is found for a list of keys and one more is what is found for the list,
/// and behind it what the key has.
pub proof fn lemma_found_in_order<K, V>(entries: Seq<(K, V)>, keys: Seq<K>, key: K)
    ensures
        match lookup(entries, key) {
            Some(v) => lookup_all(entries, keys.push(key)) == lookup_all(entries, keys).push(v),
            None => lookup_all(entries, keys.push(key)) == lookup_all(entries, keys),
        },
{
    assert(keys.push(key).drop_last() =~= keys);
}

/// Another action for a key changes nothing of what is found where the key is
/// not looked for.
pub proof fn lemma_other_keys_unchanged<K>(
    entries: Seq<(K, super::action::ActionModel)>,
    key: K,
    action: super::action::ActionModel,
    keys: Seq<K>,
)
    requires
        distinct_keys(entries),
        !keys.contains(key),
    ensures
        lookup_all(added(entries, key, action), keys) == lookup_all(entries, keys),
    decreases keys.len(),
{
    if keys.len() > 0 {
        let front = keys.drop_last();
        assert(keys[keys.len() - 1] == keys.last());
        assert(!front.contains(key)) by {
            if front.contains(key) {
                let i = choose|i: int| 0 <= i < front.len() && front[i] == key;
                assert(keys[i] == key);
            }
        }
        lemma_other_keys_unchanged(entries, key, action, front);
        lemma_lookup_after_add(entries, key, action, keys.last());
    }
}

/// What a key has is the action of an entry with that key, and it has nothing
/// where no entry has that key.
pub proof fn lemma_what_key_has<K, V>(entries: Seq<(K, V)>, key: K, i: int)
    requires
        distinct_keys(entries),
    ensures
        0 <= i < entries.len() && entries[i].0 == key ==> lookup(entries, key) == Some(
            entries[i].1,
        ),
        (forall|j: int| 0 <= j < entries.len() ==> (#[trigger] entries[j]).0 != key) ==> lookup(
            entries,
            key,
        ) is None,
{
    lemma_position(entries, key);
    if 0 <= i < entries.len() && entries[i].0 == key {
        lemma_position_is(entries, key, i);
    }
}

proof fn lemma_networks_listed(bits: u128, n: nat)
    ensures
        networks_around(bits, n).len() == n,
        forall|l: int|
            0 <= l < n ==> #[trigger] networks_around(bits, n)[l] == (
                super::prefix::network(bits, l as nat),
                l as nat,
            ),
    decreases n,
{
    if n > 0 {
        lemma_networks_listed(bits, (n - 1) as nat);
        let around = networks_around(bits, n);
        let fewer = networks_around(bits, (n - 1) as nat);
        assert forall|l: int| 0 <= l < n implies #[trigger] around[l] == (
            super::prefix::network(bits, l as nat),
            l as nat,
        ) by {
            if l < n - 1 {
                assert(around[l] == fewer[l]);
            }
        }
    }
}

/// The networks that an address lies in are those whose first bits are those of
/// the address, as many as the prefix is long, one of each length. The shorter
/// prefixes come first.
pub proof fn lemma_networks_of_address(bits: u128, net: u128, len: nat)
    requires
        super::prefix::is_network(net, len),
        len <= 128,
    ensures
        ({
            let rest = vstd::arithmetic::power2::pow2((128 - len) as nat);
            let around = networks_around(bits, 129);
            &&& rest > 0
            &&& around.contains((net, len)) <==> bits as nat / rest == net as nat / rest
            &&& around.len() == 129
            &&& around[len as int].1 == len
        }),
{
    let around = networks_around(bits, 129);
    lemma_networks_listed(bits, 129);
    super::prefix::lemma_same_first_bits(bits, net, len);
    assert(around[len as int] == (super::prefix::network(bits, len), len));
    if around.contains((net, len)) {
        let l = choose|l: int| 0 <= l < around.len() && around[l] == (net, len);
        assert(around[l].1 == l);
    }
}

/// An entry more is counted with the rules of its action.
pub proof fn lemma_rules_are_counted<K>(
    entries: Seq<(K, super::action::ActionModel)>,
    key: K,
    action: super::action::ActionModel,
)
    requires
        forall|i: int| 0 <= i < entries.len() ==> (#[trigger] entries[i]).0 != key,
    ensures
        total_size(added(entries, key, action)) == total_size(entries)
            + super::action::action_size(action),
        total_size(Seq::<(K, super::action::ActionModel)>::empty()) == 0,
{
    lemma_position(entries, key);
    super::action::lemma_combine_with_nothing(action);
    assert(added(entries, key, action).drop_last() =~= entries);
}

} // verus!
