//! Sets of capability names, and requirements made of such sets.

use crate::order::{standing, Standing};
use vstd::prelude::*;

verus! {

/// The views of a list of strings.
pub open spec fn names_of(caps: Seq<String>) -> Seq<Seq<char>> {
    caps.map_values(|s: String| s@)
}

/// Whether two lists of names have a name in common.
pub open spec fn intersects(a: Seq<Seq<char>>, b: Seq<Seq<char>>) -> bool {
    exists|name: Seq<char>| a.contains(name) && b.contains(name)
}

/// The names of a list with `sep` between each two neighbours.
pub open spec fn joined(names: Seq<Seq<char>>, sep: Seq<char>) -> Seq<char>
    decreases names.len(),
{
    if names.len() == 0 {
        Seq::empty()
    } else if names.len() == 1 {
        names[0]
    } else {
        joined(names.drop_last(), sep) + sep + names.last()
    }
}

/// How a capability set is written: its names joined by `OR`, in parentheses
/// where there is more than one.
pub open spec fn capset_text(names: Seq<Seq<char>>) -> Seq<char> {
    if names.len() == 0 {
        "(EMPTY)"@
    } else if names.len() == 1 {
        names[0]
    } else {
        "("@ + joined(names, " OR "@) + ")"@
    }
}

/// Alternative capabilities, kept in order.
#[derive(Debug)]
pub struct CapSet {
    caps: Vec<String>,
}

impl View for CapSet {
    type V = Seq<Seq<char>>;

    closed spec fn view(&self) -> Seq<Seq<char>> {
        names_of(self.caps@)
    }
}

/// Where a string stands in a sorted list: its position, or the position at
/// which it would have to be inserted.
fn search(caps: &Vec<String>, from: usize, key: &str) -> (r: Result<usize, usize>)
    requires
        from <= caps@.len(),
        crate::order::is_sorted(names_of(caps@)),
    ensures
        match r {
            Ok(n) => from <= n < caps@.len() && caps@[n as int]@ == key@,
            Err(n) => {
                &&& from <= n <= caps@.len()
                &&& forall|i: int|
                    from <= i < n ==> crate::order::str_le((#[trigger] caps@[i])@, key@)
                        && caps@[i]@ != key@
                &&& forall|i: int|
                    n <= i < caps@.len() ==> crate::order::str_le(key@, (#[trigger] caps@[i])@)
                        && caps@[i]@ != key@
            },
        },
{
    let ghost names = names_of(caps@);
    let mut low = from;
    let mut high = caps.len();
    while low < high
        invariant
            from <= low <= high <= caps@.len(),
            names == names_of(caps@),
            crate::order::is_sorted(names),
            forall|i: int|
                from <= i < low ==> crate::order::str_le((#[trigger] caps@[i])@, key@) && caps@[i]@
                    != key@,
            forall|i: int|
                high <= i < caps@.len() ==> crate::order::str_le(key@, (#[trigger] caps@[i])@)
                    && caps@[i]@ != key@,
        decreases high - low,
    {
        let mid = low + (high - low) / 2;
        let ghost m = mid as int;
        match standing(caps[mid].as_str(), key) {
            Standing::Same => {
                return Ok(mid);
            },
            Standing::Before => {
                proof {
                    assert forall|i: int| from <= i < mid + 1 implies crate::order::str_le(
                        (#[trigger] caps@[i])@,
                        key@,
                    ) && caps@[i]@ != key@ by {
                        assert(crate::order::str_le(names[i], names[m]));
                        crate::order::lemma_str_transitive(names[i], names[m], key@);
                        crate::order::lemma_str_order(names[m], key@);
                    }
                }
                low = mid + 1;
            },
            Standing::After => {
                proof {
                    assert forall|i: int| mid <= i < caps@.len() implies crate::order::str_le(
                        key@,
                        (#[trigger] caps@[i])@,
                    ) && caps@[i]@ != key@ by {
                        assert(crate::order::str_le(names[m], names[i]));
                        crate::order::lemma_str_transitive(key@, names[m], names[i]);
                        crate::order::lemma_str_order(names[m], key@);
                    }
                }
                high = mid;
            },
        }
    }
    Err(low)
}

impl CapSet {
    #[verifier::type_invariant]
    closed spec fn inv(self) -> bool {
        crate::order::is_sorted(names_of(self.caps@))
    }

    /// The set of the given names.
    pub fn new(caps: Vec<String>) -> (r: CapSet)
        ensures
            r@ == crate::order::sorted(names_of(caps@)),
    {
        let mut caps = caps;
        let ghost all = names_of(caps@);
        let mut sorted: Vec<String> = Vec::new();
        proof {
            all.to_multiset_ensures();
            assert(names_of(sorted@) =~= Seq::<Seq<char>>::empty());
            names_of(sorted@).to_multiset_ensures();
            assert(names_of(sorted@).to_multiset() =~= vstd::multiset::Multiset::empty());
        }
        while caps.len() > 0
            invariant
                crate::order::is_sorted(names_of(sorted@)),
                all.to_multiset() =~= names_of(caps@).to_multiset().add(
                    names_of(sorted@).to_multiset(),
                ),
            decreases caps@.len(),
        {
            let ghost before = names_of(caps@);
            let ghost sorted_before = names_of(sorted@);
            let cap = caps.pop().unwrap();
            let ghost name = cap@;
            let at = match search(&sorted, 0, cap.as_str()) {
                Ok(n) => n,
                Err(n) => n,
            };
            proof {
                assert forall|i: int| 0 <= i < at implies crate::order::str_le(
                    #[trigger] sorted_before[i],
                    name,
                ) by {
                    assert(sorted_before[i] == sorted@[i]@);
                    if at < sorted@.len() && sorted@[at as int]@ == name {
                        assert(crate::order::str_le(sorted_before[i], sorted_before[at as int]));
                    }
                }
                assert forall|i: int| at <= i < sorted_before.len() implies crate::order::str_le(
                    name,
                    #[trigger] sorted_before[i],
                ) by {
                    assert(sorted_before[i] == sorted@[i]@);
                    if at < sorted@.len() && sorted@[at as int]@ == name {
                        assert(crate::order::str_le(sorted_before[at as int], sorted_before[i]));
                    }
                }
            }
            sorted.insert(at, cap);
            proof {
                let after = names_of(sorted@);
                assert(after =~= sorted_before.insert(at as int, name));
                crate::order::lemma_str_order(name, name);
                assert forall|i: int, j: int| 0 <= i <= j < after.len() implies
                    #[trigger] crate::order::str_le(after[i], after[j]) by {
                    let i0 = if i < at { i } else { i - 1 };
                    let j0 = if j < at { j } else { j - 1 };
                    if i != at && j != at {
                        assert(crate::order::str_le(sorted_before[i0], sorted_before[j0]));
                    }
                }
                assert(names_of(caps@) =~= before.drop_last());
                before.to_multiset_ensures();
                before.drop_last().to_multiset_ensures();
                sorted_before.to_multiset_ensures();
                assert(before =~= before.drop_last().push(name));
                assert(before.to_multiset() =~= before.drop_last().to_multiset().insert(name));
                vstd::seq_lib::to_multiset_insert(sorted_before, at as int, name);
            }
        }
        proof {
            assert(names_of(caps@) =~= Seq::<Seq<char>>::empty());
            names_of(caps@).to_multiset_ensures();
            assert(names_of(sorted@).to_multiset() =~= all.to_multiset());
            crate::order::lemma_sorted_is(all, names_of(sorted@));
        }
        CapSet { caps: sorted }
    }

    /// Whether the two sets have a name in common.
    pub fn has_intersection(&self, other: &Self) -> (r: bool)
        ensures
            r == intersects(self@, other@),
    {
        proof {
            use_type_invariant(self);
            use_type_invariant(other);
        }
        if self.caps.len() < other.caps.len() {
            let r = shares_a_name(&other.caps, &self.caps);
            proof {
                assert(intersects(self@, other@) == intersects(other@, self@));
            }
            r
        } else {
            shares_a_name(&self.caps, &other.caps)
        }
    }

    /// Whether the set holds no name.
    pub fn is_empty(&self) -> (r: bool)
        ensures
            r == (self@.len() == 0),
    {
        self.caps.len() == 0
    }

    /// Whether the two sets hold the same names.
    pub fn same(&self, other: &Self) -> (r: bool)
        ensures
            r == (self@ == other@),
    {
        if self.caps.len() != other.caps.len() {
            assert(self@.len() != other@.len());
            return false;
        }
        let n = self.caps.len();
        let mut i: usize = 0;
        while i < n
            invariant
                n == self.caps@.len(),
                n == other.caps@.len(),
                i <= n,
                forall|j: int| 0 <= j < i ==> (#[trigger] self.caps@[j])@ == other.caps@[j]@,
            decreases n - i,
        {
            if self.caps[i] != other.caps[i] {
                assert(self@[i as int] != other@[i as int]);
                return false;
            }
            i = i + 1;
        }
        assert(self@ =~= other@);
        true
    }

    /// Whether this set comes no later than `other`: the first names that
    /// differ decide, and a set comes after the ones it begins with.
    pub fn is_before_or_same(&self, other: &Self) -> (r: bool)
        ensures
            r == crate::order::list_le(self@, other@),
    {
        let mut i: usize = 0;
        proof {
            assert(self@.skip(0) =~= self@);
            assert(other@.skip(0) =~= other@);
        }
        while i < self.caps.len() && i < other.caps.len()
            invariant
                i <= self.caps@.len(),
                i <= other.caps@.len(),
                crate::order::list_le(self@, other@) == crate::order::list_le(
                    self@.skip(i as int),
                    other@.skip(i as int),
                ),
            decreases self.caps@.len() - i,
        {
            let ghost a = self@.skip(i as int);
            let ghost b = other@.skip(i as int);
            proof {
                assert(a[0] == self.caps@[i as int]@);
                assert(b[0] == other.caps@[i as int]@);
                assert(a.skip(1) =~= self@.skip(i + 1));
                assert(b.skip(1) =~= other@.skip(i + 1));
                crate::order::lemma_str_order(a[0], b[0]);
            }
            match standing(self.caps[i].as_str(), other.caps[i].as_str()) {
                Standing::Same => {},
                Standing::Before => {
                    return true;
                },
                Standing::After => {
                    return false;
                },
            }
            i = i + 1;
        }
        i == self.caps.len()
    }

    /// The names of the set, in order.
    pub fn names(&self) -> (r: &Vec<String>)
        ensures
            names_of(r@) == self@,
            crate::order::is_sorted(self@),
    {
        proof {
            use_type_invariant(self);
        }
        &self.caps
    }

    /// The set as text.
    pub fn to_string(&self) -> (s: String)
        ensures
            s@ == capset_text(self@),
    {
        let n = self.caps.len();
        if n == 0 {
            return "(EMPTY)".to_owned();
        }
        if n == 1 {
            return self.caps[0].clone();
        }
        let mut s = String::new();
        s.append("(");
        s.append(self.caps[0].as_str());
        let mut i: usize = 1;
        proof {
            assert(self@.take(1) =~= seq![self@[0]]);
            assert(s@ =~= "("@ + joined(self@.take(1), " OR "@));
        }
        while i < n
            invariant
                n == self.caps@.len(),
                n == self@.len(),
                1 <= i <= n,
                forall|j: int| 0 <= j < n ==> self@[j] == (#[trigger] self.caps@[j])@,
                s@ == "("@ + joined(self@.take(i as int), " OR "@),
            decreases n - i,
        {
            s.append(" OR ");
            s.append(self.caps[i].as_str());
            i = i + 1;
            proof {
                assert(self@.take(i as int).drop_last() =~= self@.take(i - 1));
                assert(self@.take(i as int).last() == self@[i - 1]);
                assert(s@ =~= "("@ + joined(self@.take(i as int), " OR "@));
            }
        }
        s.append(")");
        assert(self@.take(n as int) =~= self@);
        s
    }
}

/// Whether two sorted lists have a string in common.
fn shares_a_name(a: &Vec<String>, b: &Vec<String>) -> (r: bool)
    requires
        crate::order::is_sorted(names_of(a@)),
        crate::order::is_sorted(names_of(b@)),
    ensures
        r == intersects(names_of(a@), names_of(b@)),
{
    let ghost xs = names_of(a@);
    let ghost ys = names_of(b@);
    let mut i: usize = 0;
    let mut j: usize = 0;
    while i < a.len() && j < b.len()
        invariant
            xs == names_of(a@),
            ys == names_of(b@),
            crate::order::is_sorted(xs),
            crate::order::is_sorted(ys),
            i <= a@.len(),
            j <= b@.len(),
            forall|p: int, q: int|
                0 <= p < a@.len() && 0 <= q < b@.len() && (p < i || q < j)
                    ==> #[trigger] xs[p] != #[trigger] ys[q],
        decreases b@.len() - j,
    {
        match search(a, i, b[j].as_str()) {
            Ok(n) => {
                proof {
                    assert(xs[n as int] == ys[j as int]);
                    assert(xs.contains(ys[j as int]));
                    assert(ys.contains(ys[j as int]));
                }
                return true;
            },
            Err(n) => {
                proof {
                    assert forall|p: int, q: int|
                        0 <= p < a@.len() && 0 <= q < b@.len() && (p < n || q < j + 1) implies
                        #[trigger] xs[p] != #[trigger] ys[q] by {
                        if p >= i && q >= j {
                            if q == j {
                                assert(a@[p]@ != b@[j as int]@);
                            } else {
                                // p < n: xs[p] is before ys[j], which is no later than ys[q].
                                assert(a@[p]@ != b@[j as int]@);
                                assert(crate::order::str_le(ys[j as int], ys[q]));
                                if xs[p] == ys[q] {
                                    crate::order::lemma_str_order(xs[p], ys[j as int]);
                                }
                            }
                        }
                    }
                }
                i = n;
                j = j + 1;
            },
        }
    }
    proof {
        if intersects(xs, ys) {
            let name = choose|name: Seq<char>| xs.contains(name) && ys.contains(name);
            let p = choose|p: int| 0 <= p < xs.len() && xs[p] == name;
            let q = choose|q: int| 0 <= q < ys.len() && ys[q] == name;
            assert(xs[p] != ys[q]);
        }
    }
    false
}

impl Default for CapSet {
    /// The empty set.
    fn default() -> (r: CapSet)
        ensures
            r@ == Seq::<Seq<char>>::empty(),
    {
        let r = CapSet { caps: Vec::new() };
        assert(r@ =~= Seq::<Seq<char>>::empty());
        r
    }
}

impl Clone for CapSet {
    fn clone(&self) -> (r: CapSet)
        ensures
            r@ == self@,
    {
        proof {
            use_type_invariant(self);
        }
        let n = self.caps.len();
        let mut caps: Vec<String> = Vec::new();
        let mut i: usize = 0;
        while i < n
            invariant
                n == self.caps@.len(),
                i <= n,
                caps@.len() == i,
                forall|j: int| 0 <= j < i ==> (#[trigger] caps@[j])@ == self.caps@[j]@,
            decreases n - i,
        {
            caps.push(self.caps[i].clone());
            i = i + 1;
        }
        assert(names_of(caps@) =~= names_of(self.caps@));
        CapSet { caps }
    }
}

/// The views of a list of capability sets.
pub open spec fn sets_of(items: Seq<CapSet>) -> Seq<Seq<Seq<char>>> {
    items.map_values(|c: CapSet| c@)
}

/// Whether a capability set meets every one of the requirements.
pub open spec fn all_met(requirements: Set<Seq<Seq<char>>>, caps: Seq<Seq<char>>) -> bool {
    forall|req: Seq<Seq<char>>| #[trigger] requirements.contains(req) ==> intersects(req, caps)
}

/// Requirements that have to be met together: each is a set of alternative
/// capabilities, and none is there twice.
#[derive(Debug)]
pub struct CapRequirements {
    items: Vec<CapSet>,
}

impl View for CapRequirements {
    type V = Set<Seq<Seq<char>>>;

    closed spec fn view(&self) -> Set<Seq<Seq<char>>> {
        sets_of(self.items@).to_set()
    }
}

/// The sets of a finite collection, in order.
pub open spec fn in_order(sets: Set<Seq<Seq<char>>>) -> Seq<Seq<Seq<char>>> {
    sets.to_seq().sort_by(crate::order::list_order())
}

proof fn lemma_multiset_of_distinct(a: Seq<Seq<Seq<char>>>, b: Seq<Seq<Seq<char>>>)
    requires
        a.no_duplicates(),
        b.no_duplicates(),
        a.to_set() == b.to_set(),
    ensures
        a.to_multiset() == b.to_multiset(),
{
    a.lemma_multiset_has_no_duplicates();
    b.lemma_multiset_has_no_duplicates();
    assert forall|x: Seq<Seq<char>>| #[trigger] a.to_multiset().count(x) == b.to_multiset().count(
        x,
    ) by {
        a.to_multiset_ensures();
        b.to_multiset_ensures();
        assert(a.to_set().contains(x) == a.contains(x));
        assert(b.to_set().contains(x) == b.contains(x));
    }
    assert(a.to_multiset() =~= b.to_multiset());
}

proof fn lemma_to_seq_distinct(s: Set<Seq<Seq<char>>>)
    requires
        s.finite(),
    ensures
        s.to_seq().no_duplicates(),
        s.to_seq().to_set() == s,
    decreases s.len(),
{
    s.lemma_to_seq_to_set_id();
    if s.len() > 0 {
        let x = s.choose();
        let t = s.remove(x).to_seq();
        lemma_to_seq_distinct(s.remove(x));
        assert(s.to_seq() =~= seq![x] + t);
        assert(!t.contains(x)) by {
            assert(t.to_set().contains(x) == t.contains(x));
        }
    }
}

/// A list in order of the sets of a collection, each once, is its listing.
pub proof fn lemma_in_order_is(sets: Set<Seq<Seq<char>>>, r: Seq<Seq<Seq<char>>>)
    requires
        r.no_duplicates(),
        r.to_set() == sets,
        vstd::relations::sorted_by(r, crate::order::list_order()),
    ensures
        r == in_order(sets),
{
    let leq = crate::order::list_order();
    crate::order::lemma_list_total_order();
    vstd::seq_lib::seq_to_set_is_finite(r);
    lemma_to_seq_distinct(sets);
    let listed = sets.to_seq();
    listed.lemma_sort_by_ensures(leq);
    lemma_multiset_of_distinct(r, listed);
    vstd::seq_lib::lemma_sorted_unique(r, in_order(sets), leq);
}

/// Where a capability set stands in a list.
fn position_of(items: &Vec<CapSet>, caps: &CapSet) -> (r: Option<usize>)
    ensures
        match r {
            Some(i) => i < items@.len() && items@[i as int]@ == caps@,
            None => !sets_of(items@).contains(caps@),
        },
{
    let n = items.len();
    let mut i: usize = 0;
    while i < n
        invariant
            n == items@.len(),
            i <= n,
            forall|j: int| 0 <= j < i ==> (#[trigger] items@[j])@ != caps@,
        decreases n - i,
    {
        if items[i].same(caps) {
            return Some(i);
        }
        i = i + 1;
    }
    proof {
        if sets_of(items@).contains(caps@) {
            let j = choose|j: int| 0 <= j < sets_of(items@).len() && sets_of(items@)[j] == caps@;
            assert(items@[j]@ == caps@);
        }
    }
    None
}

/// Appends a capability set unless it is there.
fn insert_set(items: &mut Vec<CapSet>, caps: CapSet)
    requires
        sets_of(old(items)@).no_duplicates(),
    ensures
        sets_of(final(items)@).no_duplicates(),
        sets_of(final(items)@).to_set() == sets_of(old(items)@).to_set().insert(caps@),
{
    let ghost before = sets_of(items@);
    match position_of(items, &caps) {
        Some(i) => {
            proof {
                assert(before[i as int] == caps@);
                assert(before.to_set().contains(caps@));
                assert(before.to_set().insert(caps@) =~= before.to_set());
            }
        },
        None => {
            items.push(caps);
            proof {
                let after = sets_of(items@);
                assert(after =~= before.push(caps@));
                assert forall|v: Seq<Seq<char>>| after.to_set().contains(v) == before.to_set().insert(
                    caps@,
                ).contains(v) by {
                    if before.contains(v) {
                        let j = choose|j: int| 0 <= j < before.len() && before[j] == v;
                        assert(after[j] == v);
                    }
                    assert(after[before.len() as int] == caps@);
                }
                assert(after.to_set() =~= before.to_set().insert(caps@));
            }
        },
    }
}

impl CapRequirements {
    #[verifier::type_invariant]
    closed spec fn inv(self) -> bool {
        sets_of(self.items@).no_duplicates()
    }

    /// No requirement at all.
    pub fn new() -> (r: CapRequirements)
        ensures
            r@ == Set::<Seq<Seq<char>>>::empty(),
    {
        let r = CapRequirements { items: Vec::new() };
        assert(r@ =~= Set::<Seq<Seq<char>>>::empty());
        r
    }

    /// The only requirement is `caps`.
    pub fn only(caps: CapSet) -> (r: CapRequirements)
        ensures
            r@ == set![caps@],
    {
        let mut r = CapRequirements::new();
        r.add_caps(caps);
        assert(r@ =~= set![caps@]);
        r
    }

    /// Adds a requirement.
    pub fn add_caps(&mut self, caps: CapSet)
        ensures
            final(self)@ == old(self)@.insert(caps@),
    {
        proof {
            use_type_invariant(&*self);
        }
        let mut items: Vec<CapSet> = Vec::new();
        std::mem::swap(&mut items, &mut self.items);
        insert_set(&mut items, caps);
        self.items = items;
    }

    /// Adds all requirements of `other`.
    pub fn extend(&mut self, other: CapRequirements)
        ensures
            final(self)@ == old(self)@.union(other@),
    {
        proof {
            use_type_invariant(&*self);
            use_type_invariant(&other);
        }
        let ghost start = self@;
        let ghost added = sets_of(other.items@);
        let mut items: Vec<CapSet> = Vec::new();
        std::mem::swap(&mut items, &mut self.items);
        let n = other.items.len();
        let mut i: usize = 0;
        assert(start.union(added.take(0).to_set()) =~= start);
        while i < n
            invariant
                n == other.items@.len(),
                n == added.len(),
                i <= n,
                added == sets_of(other.items@),
                sets_of(items@).no_duplicates(),
                sets_of(items@).to_set() == start.union(added.take(i as int).to_set()),
            decreases n - i,
        {
            insert_set(&mut items, other.items[i].clone());
            proof {
                let caps = other.items@[i as int]@;
                let front = added.take(i as int);
                let next = added.take(i + 1);
                assert(next =~= front.push(caps));
                assert forall|v: Seq<Seq<char>>| next.to_set().contains(v) == front.to_set().insert(
                    caps,
                ).contains(v) by {
                    if front.contains(v) {
                        let j = choose|j: int| 0 <= j < front.len() && front[j] == v;
                        assert(next[j] == v);
                    }
                    assert(next[i as int] == caps);
                }
                assert(start.union(next.to_set()) =~= start.union(front.to_set()).insert(caps));
            }
            i = i + 1;
        }
        assert(added.take(n as int) =~= added);
        self.items = items;
    }

    /// The requirements of both.
    pub fn plus(self, other: CapRequirements) -> (r: CapRequirements)
        ensures
            r@ == self@.union(other@),
    {
        let mut r = self;
        r.extend(other);
        r
    }

    /// The number of requirements.
    pub fn len(&self) -> (n: usize)
        ensures
            n == self@.len(),
    {
        proof {
            use_type_invariant(self);
            sets_of(self.items@).unique_seq_to_set();
        }
        self.items.len()
    }

    /// The requirements in order.
    pub fn listed(&self) -> (r: Vec<CapSet>)
        ensures
            sets_of(r@) == in_order(self@),
    {
        proof {
            use_type_invariant(self);
            crate::order::lemma_list_total_order();
        }
        let ghost leq = crate::order::list_order();
        let ghost all = sets_of(self.items@);
        let n = self.items.len();
        let mut r: Vec<CapSet> = Vec::new();
        let mut i: usize = 0;
        assert(sets_of(r@) =~= all.take(0));
        while i < n
            invariant
                n == self.items@.len(),
                i <= n,
                all == sets_of(self.items@),
                all.no_duplicates(),
                leq == crate::order::list_order(),
                vstd::relations::total_ordering(leq),
                vstd::relations::sorted_by(sets_of(r@), leq),
                sets_of(r@).no_duplicates(),
                sets_of(r@).to_set() == all.take(i as int).to_set(),
            decreases n - i,
        {
            let caps = self.items[i].clone();
            let ghost name = caps@;
            let ghost before = sets_of(r@);
            let mut at: usize = 0;
            while at < r.len() && r[at].is_before_or_same(&caps)
                invariant
                    at <= r@.len(),
                    before == sets_of(r@),
                    name == caps@,
                    leq == crate::order::list_order(),
                    forall|j: int| 0 <= j < at ==> leq(#[trigger] before[j], name),
                decreases r@.len() - at,
            {
                at = at + 1;
            }
            let ghost front = all.take(i as int);
            let ghost next = all.take(i + 1);
            proof {
                assert(next =~= front.push(name));
                assert(!front.contains(name)) by {
                    if front.contains(name) {
                        let j = choose|j: int| 0 <= j < front.len() && front[j] == name;
                        assert(all[j] == all[i as int]);
                    }
                }
                assert(before.to_set().contains(name) == before.contains(name));
                assert(front.to_set().contains(name) == front.contains(name));
                assert forall|j: int| at <= j < before.len() implies leq(
                    name,
                    #[trigger] before[j],
                ) by {
                    crate::order::lemma_list_order(name, before[at as int]);
                    assert(before[at as int] == r@[at as int]@);
                    if j > at {
                        assert(leq(before[at as int], before[j]));
                        crate::order::lemma_list_transitive(name, before[at as int], before[j]);
                    }
                }
            }
            r.insert(at, caps);
            proof {
                let after = sets_of(r@);
                assert(after =~= before.insert(at as int, name));
                assert forall|x: int, y: int| 0 <= x < y < after.len() implies #[trigger] leq(
                    after[x],
                    after[y],
                ) by {
                    let x0 = if x < at { x } else { x - 1 };
                    let y0 = if y < at { y } else { y - 1 };
                    if x != at && y != at {
                        assert(leq(before[x0], before[y0]));
                    } else if x == at {
                        assert(leq(name, before[y0]));
                    } else {
                        assert(leq(before[x0], name));
                    }
                }
                assert forall|x: int, y: int|
                    0 <= x < y < after.len() implies after[x] != after[y] by {
                    let x0 = if x < at { x } else { x - 1 };
                    let y0 = if y < at { y } else { y - 1 };
                    if x == at {
                        assert(before.contains(before[y0]));
                    } else if y == at {
                        assert(before.contains(before[x0]));
                    } else {
                        assert(before[x0] != before[y0]);
                    }
                }
                assert forall|v: Seq<Seq<char>>| after.to_set().contains(v)
                    == next.to_set().contains(v) by {
                    assert(after.to_set().contains(v) == after.contains(v));
                    assert(next.to_set().contains(v) == next.contains(v));
                    assert(before.to_set().contains(v) == before.contains(v));
                    assert(front.to_set().contains(v) == front.contains(v));
                    if before.contains(v) {
                        let j = choose|j: int| 0 <= j < before.len() && before[j] == v;
                        assert(after[if j < at { j } else { j + 1 }] == v);
                    }
                    if front.contains(v) {
                        let j = choose|j: int| 0 <= j < front.len() && front[j] == v;
                        assert(next[j] == v);
                    }
                    if after.contains(v) && v != name {
                        let j = choose|j: int| 0 <= j < after.len() && after[j] == v;
                        assert(before[if j < at { j } else { j - 1 }] == v);
                    }
                    if next.contains(v) && v != name {
                        let j = choose|j: int| 0 <= j < next.len() && next[j] == v;
                        assert(front[j] == v);
                    }
                    assert(after[at as int] == name);
                    assert(next[i as int] == name);
                }
                assert(after.to_set() =~= next.to_set());
            }
            i = i + 1;
        }
        proof {
            assert(all.take(n as int) =~= all);
            lemma_in_order_is(self@, sets_of(r@));
        }
        r
    }

    /// Whether `caps` is one of the requirements.
    pub fn contains(&self, caps: &CapSet) -> (r: bool)
        ensures
            r == self@.contains(caps@),
    {
        match position_of(&self.items, caps) {
            Some(i) => {
                assert(sets_of(self.items@)[i as int] == caps@);
                true
            },
            None => false,
        }
    }

    /// Whether both make the same requirements.
    pub fn same(&self, other: &CapRequirements) -> (r: bool)
        ensures
            r == (self@ == other@),
    {
        proof {
            use_type_invariant(self);
            use_type_invariant(other);
            sets_of(self.items@).unique_seq_to_set();
            sets_of(other.items@).unique_seq_to_set();
        }
        if self.items.len() != other.items.len() {
            return false;
        }
        let n = self.items.len();
        let mut i: usize = 0;
        while i < n
            invariant
                n == self.items@.len(),
                i <= n,
                forall|j: int| 0 <= j < i ==> other@.contains((#[trigger] self.items@[j])@),
            decreases n - i,
        {
            if !other.contains(&self.items[i]) {
                assert(sets_of(self.items@)[i as int] == self.items@[i as int]@);
                assert(self@.contains(self.items@[i as int]@));
                return false;
            }
            i = i + 1;
        }
        proof {
            assert forall|v: Seq<Seq<char>>| self@.contains(v) implies other@.contains(v) by {
                let j = choose|j: int|
                    0 <= j < sets_of(self.items@).len() && sets_of(self.items@)[j] == v;
                assert(self.items@[j]@ == v);
            }
            assert(self@.subset_of(other@));
            vstd::set_lib::lemma_subset_equality(self@, other@);
        }
        true
    }

    /// Whether `caps` meets every requirement.
    pub fn meet(&self, caps: &CapSet) -> (r: bool)
        ensures
            r == all_met(self@, caps@),
    {
        let n = self.items.len();
        let mut i: usize = 0;
        while i < n
            invariant
                n == self.items@.len(),
                i <= n,
                forall|j: int| 0 <= j < i ==> intersects((#[trigger] self.items@[j])@, caps@),
            decreases n - i,
        {
            if !self.items[i].has_intersection(caps) {
                assert(sets_of(self.items@)[i as int] == self.items@[i as int]@);
                assert(self@.contains(self.items@[i as int]@));
                return false;
            }
            i = i + 1;
        }
        proof {
            assert forall|req: Seq<Seq<char>>| #[trigger]
                self@.contains(req) implies intersects(req, caps@) by {
                let j = choose|j: int|
                    0 <= j < sets_of(self.items@).len() && sets_of(self.items@)[j] == req;
                assert(self.items@[j]@ == req);
            }
        }
        true
    }
}

impl Default for CapRequirements {
    fn default() -> (r: CapRequirements)
        ensures
            r@ == Set::<Seq<Seq<char>>>::empty(),
    {
        CapRequirements::new()
    }
}

impl Clone for CapRequirements {
    fn clone(&self) -> (r: CapRequirements)
        ensures
            r@ == self@,
    {
        proof {
            use_type_invariant(self);
        }
        let n = self.items.len();
        let mut items: Vec<CapSet> = Vec::new();
        let mut i: usize = 0;
        while i < n
            invariant
                n == self.items@.len(),
                i <= n,
                items@.len() == i,
                forall|j: int| 0 <= j < i ==> (#[trigger] items@[j])@ == self.items@[j]@,
            decreases n - i,
        {
            items.push(self.items[i].clone());
            i = i + 1;
        }
        assert(sets_of(items@) =~= sets_of(self.items@));
        CapRequirements { items }
    }
}

/// Asking whether one capability set meets several requirements.
pub trait CheckAllCapsMeet {
    /// The requirements.
    spec fn requirements(&self) -> Set<Seq<Seq<char>>>;

    /// Whether `caps` meets all of the requirements.
    fn all_meet_by(&self, caps: &CapSet) -> (r: bool)
        ensures
            r == all_met(self.requirements(), caps@),
    ;
}

impl CheckAllCapsMeet for CapRequirements {
    open spec fn requirements(&self) -> Set<Seq<Seq<char>>> {
        self@
    }

    fn all_meet_by(&self, caps: &CapSet) -> (r: bool) {
        self.meet(caps)
    }
}

// ---- laws ----

/// Nothing required is met by every set. One requirement more is met where the
/// others are and one of its names is there.
pub proof fn lemma_requirement_more(
    requirements: Set<Seq<Seq<char>>>,
    requirement: Seq<Seq<char>>,
    caps: Seq<Seq<char>>,
)
    ensures
        all_met(Set::empty(), caps),
        all_met(requirements.insert(requirement), caps) <==> all_met(requirements, caps) && exists|
            i: int,
            j: int,
        |
            0 <= i < requirement.len() && 0 <= j < caps.len() && #[trigger] requirement[i]
                == #[trigger] caps[j],
{
    let more = requirements.insert(requirement);
    assert(more.contains(requirement));
    if all_met(more, caps) {
        assert(intersects(requirement, caps));
        let name = choose|name: Seq<char>| requirement.contains(name) && caps.contains(name);
        let i = choose|i: int| 0 <= i < requirement.len() && requirement[i] == name;
        let j = choose|j: int| 0 <= j < caps.len() && caps[j] == name;
        assert(requirement[i] == caps[j]);
        assert forall|req: Seq<Seq<char>>| #[trigger] requirements.contains(req) implies intersects(
            req,
            caps,
        ) by {
            assert(more.contains(req));
        }
    }
    if exists|i: int, j: int|
        0 <= i < requirement.len() && 0 <= j < caps.len() && #[trigger] requirement[i]
            == #[trigger] caps[j] {
        let (i, j) = choose|i: int, j: int|
            0 <= i < requirement.len() && 0 <= j < caps.len() && #[trigger] requirement[i]
                == #[trigger] caps[j];
        assert(requirement.contains(caps[j]) && caps.contains(caps[j]));
        assert(intersects(requirement, caps));
    }
}

/// More capabilities never meet fewer requirements, and none meet nothing that
/// is required.
pub proof fn lemma_more_capabilities(
    requirements: Set<Seq<Seq<char>>>,
    caps: Seq<Seq<char>>,
    name: Seq<char>,
    requirement: Seq<Seq<char>>,
)
    ensures
        all_met(requirements, caps) ==> all_met(requirements, caps.push(name)),
        requirements.contains(requirement) ==> !all_met(requirements, Seq::empty()),
{
    if all_met(requirements, caps) {
        assert forall|req: Seq<Seq<char>>| #[trigger] requirements.contains(req) implies intersects(
            req,
            caps.push(name),
        ) by {
            let common = choose|common: Seq<char>| req.contains(common) && caps.contains(common);
            let j = choose|j: int| 0 <= j < caps.len() && caps[j] == common;
            assert(caps.push(name)[j] == common);
        }
    }
    if requirements.contains(requirement) {
        assert(!intersects(requirement, Seq::empty()));
    }
}

/// A name more is written behind a separator, and the first one without.
pub proof fn lemma_names_are_joined(names: Seq<Seq<char>>, name: Seq<char>, sep: Seq<char>)
    ensures
        names.len() > 0 ==> joined(names.push(name), sep) == joined(names, sep) + sep + name,
        joined(seq![name], sep) == name,
        joined(Seq::empty(), sep) == Seq::<char>::empty(),
        capset_text(seq![name]) == name,
        names.len() > 0 ==> capset_text(names.push(name)) == seq!['('] + (joined(names, " OR "@)
            + " OR "@ + name) + seq![')'],
{
    reveal_strlit("(");
    reveal_strlit(")");
    assert(names.push(name).drop_last() =~= names);
    assert("("@ =~= seq!['(']);
    assert(")"@ =~= seq![')']);
}

} // verus!
