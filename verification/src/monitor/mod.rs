//! Watching over the proxy servers.

pub mod alive_test;
pub mod graphite;
pub mod traffic;

use self::alive_test::random_byte;
use self::graphite::{records_of, Record};
use self::traffic::{Meter, TrafficSample};
use crate::net::SocketAddr;
use crate::proxy::{ProxyServer, Traffic};
use crate::server::{ServerListConfig, ServerListError};
use crate::text::{push_dec, push_signed};
use crate::time::Duration;
use vstd::prelude::*;

verus! {

// ---- putting servers in order ----

/// A score as a number; where there is none it is the worst one.
pub open spec fn rank(score: Option<i32>) -> int {
    match score {
        Some(score) => score as int,
        None => i32::MAX as int,
    }
}

/// The place of a server: its score, or the worst one, brought forward by up to
/// 29 at random.
pub open spec fn sort_key(score: Option<i32>, jitter: u8) -> int {
    rank(score) - jitter % 30
}

/// Whether one score is better than another: it is lower, or there is no other.
pub open spec fn is_better(a: Option<i32>, b: Option<i32>) -> bool {
    match (a, b) {
        (Some(x), Some(y)) => x < y,
        (Some(_), None) => true,
        _ => false,
    }
}

/// Whether servers are sorted by their scores, those without one at the end.
pub open spec fn by_score(servers: Seq<crate::proxy::ServerModel>) -> bool {
    forall|i: int, j: int|
        0 <= i < j < servers.len() ==> !is_better(
            (#[trigger] servers[j]).status.score,
            (#[trigger] servers[i]).status.score,
        )
}

/// Whether scores that differ are so far apart that chance decides nothing.
pub open spec fn far_apart(servers: Seq<crate::proxy::ServerModel>) -> bool {
    forall|i: int, j: int|
        0 <= i < servers.len() && 0 <= j < servers.len() && is_better(
            (#[trigger] servers[i]).status.score,
            (#[trigger] servers[j]).status.score,
        ) ==> rank(servers[i].status.score) + 30 <= rank(servers[j].status.score)
}

/// Whether some servers were put in order of their scores: they are the same
/// ones, no server comes before one that is better by 30 or more, and where
/// scores that differ are that far apart the servers are sorted by them.
pub open spec fn put_by_score(
    before: Seq<crate::proxy::ServerModel>,
    after: Seq<crate::proxy::ServerModel>,
) -> bool {
    &&& after.to_multiset() == before.to_multiset()
    &&& forall|i: int, j: int|
        0 <= i < j < after.len() ==> rank((#[trigger] after[i]).status.score) < rank(
            (#[trigger] after[j]).status.score,
        ) + 30
    &&& far_apart(before) ==> by_score(after)
}

/// Whether `order` puts some keys in order: it names each place once, no key
/// comes before a smaller one, and equal ones stay as they were.
pub open spec fn puts_in_order(order: Seq<usize>, keys: Seq<int>) -> bool {
    &&& order.len() == keys.len()
    &&& order.no_duplicates()
    &&& forall|i: int| 0 <= i < order.len() ==> (#[trigger] order[i]) < keys.len()
    &&& forall|i: int, j: int|
        0 <= i < j < order.len() ==> {
            let a = #[trigger] order[i];
            let b = #[trigger] order[j];
            keys[a as int] < keys[b as int] || (keys[a as int] == keys[b as int] && a < b)
        }
}

/// The keys as numbers.
pub open spec fn key_values(keys: Seq<i64>) -> Seq<int> {
    keys.map_values(|k: i64| k as int)
}

/// Finds the order of some keys.
pub fn order_of(keys: &Vec<i64>) -> (r: Vec<usize>)
    ensures
        puts_in_order(r@, key_values(keys@)),
{
    let n = keys.len();
    let mut r: Vec<usize> = Vec::new();
    let mut i: usize = 0;
    while i < n
        invariant
            n == keys@.len(),
            i <= n,
            r@.len() == i,
            r@.no_duplicates(),
            forall|j: int| 0 <= j < r@.len() ==> (#[trigger] r@[j]) < i,
            forall|j: int, k: int|
                0 <= j < k < r@.len() ==> {
                    let a = #[trigger] r@[j];
                    let b = #[trigger] r@[k];
                    keys@[a as int] < keys@[b as int] || (keys@[a as int] == keys@[b as int] && a
                        < b)
                },
        decreases n - i,
    {
        let key = keys[i];
        let mut at: usize = r.len();
        while at > 0 && keys[r[at - 1]] > key
            invariant
                n == keys@.len(),
                i < n,
                key == keys@[i as int],
                at <= r@.len(),
                forall|j: int| 0 <= j < r@.len() ==> (#[trigger] r@[j]) < i,
                forall|j: int| at <= j < r@.len() ==> keys@[(#[trigger] r@[j]) as int] > key,
            decreases at,
        {
            at = at - 1;
        }
        let ghost before = r@;
        proof {
            assert forall|j: int| 0 <= j < at implies keys@[(#[trigger] before[j]) as int]
                <= key by {
                if j < at - 1 {
                    let a = before[j];
                    let b = before[at - 1];
                    assert(keys@[a as int] <= keys@[b as int]);
                }
            }
        }
        r.insert(at, i);
        proof {
            let after = r@;
            assert forall|j: int| 0 <= j < after.len() implies (#[trigger] after[j]) < i + 1 by {
                if j < at {
                    assert(after[j] == before[j]);
                } else if j > at {
                    assert(after[j] == before[j - 1]);
                }
            }
            assert forall|j: int, k: int| 0 <= j < k < after.len() implies {
                let a = #[trigger] after[j];
                let b = #[trigger] after[k];
                keys@[a as int] < keys@[b as int] || (keys@[a as int] == keys@[b as int] && a < b)
            } by {
                let j0 = if j < at { j } else { j - 1 };
                let k0 = if k < at { k } else { k - 1 };
                if j != at && k != at {
                    assert(after[j] == before[j0]);
                    assert(after[k] == before[k0]);
                } else if k == at {
                    assert(after[j] == before[j]);
                } else {
                    assert(after[k] == before[k - 1]);
                }
            }
            assert forall|j: int, k: int|
                0 <= j < after.len() && 0 <= k < after.len() && j != k implies after[j]
                != after[k] by {
                let a = after[j];
                let b = after[k];
                if j < k {
                    assert(keys@[a as int] < keys@[b as int] || (keys@[a as int] == keys@[b as int]
                        && a < b));
                } else {
                    assert(keys@[b as int] < keys@[a as int] || (keys@[b as int] == keys@[a as int]
                        && b < a));
                }
            }
        }
        i = i + 1;
    }
    r
}

/// The list with its items in another order.
pub open spec fn reordered<T>(items: Seq<T>, order: Seq<usize>) -> Seq<T> {
    order.map_values(|i: usize| items[i as int])
}

/// The places of some servers in order.
pub open spec fn server_keys(servers: Seq<crate::proxy::ServerModel>, jitter: Seq<u8>) -> Seq<int> {
    Seq::new(servers.len(), |i: int| sort_key(servers[i].status.score, jitter[i]))
}

proof fn lemma_order_names_all(order: Seq<usize>, n: nat, k: int)
    requires
        order.len() == n,
        order.no_duplicates(),
        forall|i: int| 0 <= i < order.len() ==> (#[trigger] order[i]) < n,
        0 <= k < n,
    ensures
        order.contains(k as usize),
{
    let places = order.map_values(|i: usize| i as int);
    assert(places.no_duplicates());
    places.unique_seq_to_set();
    vstd::seq_lib::seq_to_set_is_finite(places);
    let all = vstd::set_lib::set_int_range(0, n as int);
    vstd::set_lib::lemma_int_range(0, n as int);
    assert(places.to_set().subset_of(all));
    vstd::set_lib::lemma_subset_equality(places.to_set(), all);
    assert(all.contains(k));
    assert(places.contains(k));
    let i = choose|i: int| 0 <= i < places.len() && places[i] == k;
    assert(order[i] == k as usize);
}

/// Another order has the same items.
proof fn lemma_reordered_items<T>(items: Seq<T>, order: Seq<usize>)
    requires
        items.len() <= usize::MAX,
        order.len() == items.len(),
        order.no_duplicates(),
        forall|i: int| 0 <= i < order.len() ==> (#[trigger] order[i]) < items.len(),
    ensures
        reordered(items, order).to_multiset() == items.to_multiset(),
    decreases items.len(),
{
    let after = reordered(items, order);
    let n = items.len() as int;
    if n == 0 {
        assert(after =~= items);
    } else {
        lemma_order_names_all(order, items.len(), n - 1);
        let p = choose|p: int| 0 <= p < order.len() && order[p] == (n - 1) as usize;
        let rest = order.remove(p);
        let front = items.drop_last();
        assert forall|i: int| 0 <= i < rest.len() implies (#[trigger] rest[i]) < front.len() by {
            let k = if i < p { i } else { i + 1 };
            assert(rest[i] == order[k]);
            assert(order[k] != order[p]);
        }
        assert(rest.no_duplicates()) by {
            assert forall|i: int, j: int|
                0 <= i < rest.len() && 0 <= j < rest.len() && i != j implies rest[i] != rest[j] by {
                let a = if i < p { i } else { i + 1 };
                let b = if j < p { j } else { j + 1 };
                assert(order[a] != order[b]);
            }
        }
        lemma_reordered_items(front, rest);
        assert(reordered(front, rest) =~= after.remove(p));
        assert(front =~= items.remove(n - 1));
        after.to_multiset_ensures();
        items.to_multiset_ensures();
        assert(after[p] == items[n - 1]);
        let a = after.to_multiset();
        let b = items.to_multiset();
        assert(a.contains(after[p]));
        assert(b.contains(items[n - 1]));
        assert(a =~= a.remove(after[p]).insert(after[p]));
        assert(b =~= b.remove(after[p]).insert(after[p]));
    }
}

/// Whether the random numbers put no server before a better one.
pub open spec fn scores_decide(
    servers: Seq<crate::proxy::ServerModel>,
    jitter: Seq<u8>,
) -> bool {
    let keys = server_keys(servers, jitter);
    forall|a: int, b: int|
        0 <= a < servers.len() && 0 <= b < servers.len() && is_better(
            (#[trigger] servers[a]).status.score,
            (#[trigger] servers[b]).status.score,
        ) ==> (keys[a] < keys[b] || (keys[a] == keys[b] && a < b))
}

/// The servers stay the same ones with the same scores. They are sorted by their
/// scores, those without one at the end, exactly where the random numbers put no
/// server before a better one.
pub proof fn lemma_sorted_by_score(
    servers: Seq<crate::proxy::ServerModel>,
    jitter: Seq<u8>,
    order: Seq<usize>,
)
    requires
        servers.len() <= usize::MAX,
        jitter.len() == servers.len(),
        puts_in_order(order, server_keys(servers, jitter)),
    ensures
        reordered(servers, order).to_multiset() == servers.to_multiset(),
        by_score(reordered(servers, order)) <==> scores_decide(servers, jitter),
{
    let after = reordered(servers, order);
    let keys = server_keys(servers, jitter);
    lemma_reordered_items(servers, order);
    if scores_decide(servers, jitter) {
        assert forall|i: int, j: int| 0 <= i < j < after.len() implies !is_better(
            (#[trigger] after[j]).status.score,
            (#[trigger] after[i]).status.score,
        ) by {
            let a = order[i];
            let b = order[j];
            assert(after[i] == servers[a as int]);
            assert(after[j] == servers[b as int]);
        }
    }
    if by_score(after) {
        assert forall|a: int, b: int|
            0 <= a < servers.len() && 0 <= b < servers.len() && is_better(
                (#[trigger] servers[a]).status.score,
                (#[trigger] servers[b]).status.score,
            ) implies (keys[a] < keys[b] || (keys[a] == keys[b] && a < b)) by {
            lemma_order_names_all(order, servers.len(), a);
            lemma_order_names_all(order, servers.len(), b);
            let p = choose|p: int| 0 <= p < order.len() && order[p] == a as usize;
            let q = choose|q: int| 0 <= q < order.len() && order[q] == b as usize;
            assert(after[p] == servers[a]);
            assert(after[q] == servers[b]);
            if p < q {
                assert(order[p] == a && order[q] == b);
            }
        }
    }
}

/// Where the same number is drawn for all servers, they are sorted by their
/// scores, those without one at the end. A score that is the worst one of all
/// cannot be told from none.
pub proof fn lemma_equal_draws_sort_by_score(
    servers: Seq<crate::proxy::ServerModel>,
    jitter: Seq<u8>,
    order: Seq<usize>,
    drawn: u8,
)
    requires
        servers.len() <= usize::MAX,
        jitter.len() == servers.len(),
        puts_in_order(order, server_keys(servers, jitter)),
        forall|i: int| 0 <= i < jitter.len() ==> (#[trigger] jitter[i]) % 30 == drawn,
        forall|i: int|
            0 <= i < servers.len() ==> (#[trigger] servers[i]).status.score != Some(i32::MAX),
    ensures
        by_score(reordered(servers, order)),
{
    lemma_sorted_by_score(servers, jitter, order);
    assert(scores_decide(servers, jitter)) by {
        assert forall|a: int, b: int|
            0 <= a < servers.len() && 0 <= b < servers.len() && is_better(
                (#[trigger] servers[a]).status.score,
                (#[trigger] servers[b]).status.score,
            ) implies server_keys(servers, jitter)[a] < server_keys(servers, jitter)[b] by {
            assert(jitter[a] % 30 == jitter[b] % 30);
        }
    }
}

proof fn lemma_put_by_score(
    servers: Seq<crate::proxy::ServerModel>,
    jitter: Seq<u8>,
    order: Seq<usize>,
)
    requires
        servers.len() <= usize::MAX,
        jitter.len() == servers.len(),
        puts_in_order(order, server_keys(servers, jitter)),
    ensures
        put_by_score(servers, reordered(servers, order)),
{
    let after = reordered(servers, order);
    lemma_sorted_by_score(servers, jitter, order);
    assert forall|i: int, j: int| 0 <= i < j < after.len() implies rank(
        (#[trigger] after[i]).status.score,
    ) < rank((#[trigger] after[j]).status.score) + 30 by {
        let a = order[i];
        let b = order[j];
        assert(after[i] == servers[a as int]);
        assert(after[j] == servers[b as int]);
    }
}

/// A server whose score is better by 30 or more comes first.
pub proof fn lemma_better_server_first(
    servers: Seq<crate::proxy::ServerModel>,
    jitter: Seq<u8>,
    order: Seq<usize>,
    i: int,
    j: int,
)
    requires
        jitter.len() == servers.len(),
        puts_in_order(order, server_keys(servers, jitter)),
        0 <= i < order.len(),
        0 <= j < order.len(),
        ({
            let a = reordered(servers, order)[i].status.score;
            let b = reordered(servers, order)[j].status.score;
            &&& a is Some
            &&& b matches Some(worse) ==> a.unwrap() + 30 <= worse
            &&& b is None ==> a.unwrap() + 30 <= i32::MAX
        }),
    ensures
        i < j,
{
    let keys = server_keys(servers, jitter);
    let a = order[i];
    let b = order[j];
    assert(keys[a as int] < keys[b as int]);
    if j < i {
        assert(keys[b as int] <= keys[a as int]);
    }
}

// ---- replacing servers ----

/// Where a server of the new list comes from.
#[derive(Debug, Clone, Copy, PartialEq, Eq, Structural)]
pub enum Origin {
    /// It is an old one, with what was set for a new one.
    Kept { old_at: usize, new_at: usize },
    /// It is a new one.
    Added { new_at: usize },
}

/// Where a server stands first in a list.
pub open spec fn first_at(
    servers: Seq<crate::proxy::ServerModel>,
    id: crate::proxy::ServerIdentity,
) -> Option<int>
    decreases servers.len(),
{
    if servers.len() == 0 {
        None
    } else {
        match first_at(servers.drop_last(), id) {
            Some(i) => Some(i),
            None => if servers.last().identity() == id {
                Some(servers.len() - 1)
            } else {
                None
            },
        }
    }
}

proof fn lemma_first_at(
    servers: Seq<crate::proxy::ServerModel>,
    id: crate::proxy::ServerIdentity,
)
    ensures
        match first_at(servers, id) {
            Some(i) => {
                &&& 0 <= i < servers.len()
                &&& servers[i].identity() == id
                &&& forall|j: int| 0 <= j < i ==> (#[trigger] servers[j]).identity() != id
            },
            None => forall|j: int|
                0 <= j < servers.len() ==> (#[trigger] servers[j]).identity() != id,
        },
    decreases servers.len(),
{
    if servers.len() > 0 {
        let front = servers.drop_last();
        lemma_first_at(front, id);
        match first_at(front, id) {
            Some(i) => {
                assert(front[i] == servers[i]);
                assert forall|j: int| 0 <= j < i implies (#[trigger] servers[j]).identity()
                    != id by {
                    assert(front[j] == servers[j]);
                }
            },
            None => {
                assert forall|j: int| 0 <= j < servers.len() - 1 implies (
                #[trigger] servers[j]).identity() != id by {
                    assert(front[j] == servers[j]);
                }
            },
        }
    }
}

proof fn lemma_first_at_is(
    servers: Seq<crate::proxy::ServerModel>,
    id: crate::proxy::ServerIdentity,
    i: int,
)
    requires
        0 <= i < servers.len(),
        servers[i].identity() == id,
        forall|j: int| 0 <= j < i ==> (#[trigger] servers[j]).identity() != id,
    ensures
        first_at(servers, id) == Some(i),
{
    lemma_first_at(servers, id);
    match first_at(servers, id) {
        Some(k) => {
            if k < i {
                assert(servers[k].identity() != id);
            } else if i < k {
                assert(servers[i].identity() != id);
            }
        },
        None => {
            assert(servers[i].identity() != id);
        },
    }
}

/// The servers of the first `n` old ones that stay, each once.
pub open spec fn kept(
    old_servers: Seq<crate::proxy::ServerModel>,
    new_servers: Seq<crate::proxy::ServerModel>,
    n: int,
) -> Seq<Origin>
    decreases n,
{
    if n <= 0 {
        Seq::empty()
    } else {
        let front = kept(old_servers, new_servers, n - 1);
        let id = old_servers[n - 1].identity();
        match first_at(new_servers, id) {
            Some(j) if first_at(old_servers, id) == Some(n - 1) => front.push(
                Origin::Kept { old_at: (n - 1) as usize, new_at: j as usize },
            ),
            _ => front,
        }
    }
}

/// The servers of the first `n` new ones that were not there before, each once.
pub open spec fn brand_new(
    old_servers: Seq<crate::proxy::ServerModel>,
    new_servers: Seq<crate::proxy::ServerModel>,
    n: int,
) -> Seq<Origin>
    decreases n,
{
    if n <= 0 {
        Seq::empty()
    } else {
        let front = brand_new(old_servers, new_servers, n - 1);
        let id = new_servers[n - 1].identity();
        if first_at(old_servers, id) is None && first_at(new_servers, id) == Some(n - 1) {
            front.push(Origin::Added { new_at: (n - 1) as usize })
        } else {
            front
        }
    }
}

/// Where the servers come from when a list takes the place of another: those
/// that stay, and those that are new.
pub open spec fn origins(
    old_servers: Seq<crate::proxy::ServerModel>,
    new_servers: Seq<crate::proxy::ServerModel>,
) -> Seq<Origin> {
    kept(old_servers, new_servers, old_servers.len() as int) + brand_new(
        old_servers,
        new_servers,
        new_servers.len() as int,
    )
}

/// The server that an origin stands for: an old one keeps its status and takes
/// over what was set.
pub open spec fn from_origin(
    old_servers: Seq<crate::proxy::ServerModel>,
    new_servers: Seq<crate::proxy::ServerModel>,
    origin: Origin,
) -> crate::proxy::ServerModel {
    match origin {
        Origin::Kept { old_at, new_at } => crate::proxy::ServerModel {
            config: new_servers[new_at as int].config,
            ..old_servers[old_at as int]
        },
        Origin::Added { new_at } => new_servers[new_at as int],
    }
}

/// The servers once a list took the place of another.
pub open spec fn replaced_by(
    old_servers: Seq<crate::proxy::ServerModel>,
    new_servers: Seq<crate::proxy::ServerModel>,
) -> Seq<crate::proxy::ServerModel> {
    origins(old_servers, new_servers).map_values(
        |o: Origin| from_origin(old_servers, new_servers, o),
    )
}

/// Finds where a server stands first in a list.
pub fn find_server(servers: &Vec<ProxyServer>, server: &ProxyServer) -> (r: Option<usize>)
    ensures
        match first_at(crate::proxy::server_models(servers@), server.identity()) {
            Some(i) => r == Some(i as usize) && 0 <= i < servers@.len(),
            None => r is None,
        },
{
    let n = servers.len();
    let mut i: usize = 0;
    let ghost models = crate::proxy::server_models(servers@);
    while i < n
        invariant
            n == servers@.len(),
            i <= n,
            models == crate::proxy::server_models(servers@),
            forall|j: int| 0 <= j < i ==> (#[trigger] models[j]).identity() != server.identity(),
        decreases n - i,
    {
        if servers[i].same(server) {
            proof {
                assert(models[i as int] == servers@[i as int]@);
                lemma_first_at_is(models, server.identity(), i as int);
            }
            return Some(i);
        }
        assert(models[i as int] == servers@[i as int]@);
        i = i + 1;
    }
    proof {
        lemma_first_at(models, server.identity());
    }
    None
}

/// Finds where the servers come from when a list takes the place of another.
pub fn merge(old_servers: &Vec<ProxyServer>, new_servers: &Vec<ProxyServer>) -> (r: Vec<Origin>)
    ensures
        r@ == origins(
            crate::proxy::server_models(old_servers@),
            crate::proxy::server_models(new_servers@),
        ),
{
    let ghost olds = crate::proxy::server_models(old_servers@);
    let ghost news = crate::proxy::server_models(new_servers@);
    let mut r: Vec<Origin> = Vec::new();
    let n = old_servers.len();
    let mut i: usize = 0;
    while i < n
        invariant
            n == old_servers@.len(),
            i <= n,
            olds == crate::proxy::server_models(old_servers@),
            news == crate::proxy::server_models(new_servers@),
            r@ == kept(olds, news, i as int),
        decreases n - i,
    {
        assert(olds[i as int] == old_servers@[i as int]@);
        let at = find_server(old_servers, &old_servers[i]);
        if let Some(new_at) = find_server(new_servers, &old_servers[i]) {
            if at == Some(i) {
                r.push(Origin::Kept { old_at: i, new_at });
            }
        }
        i = i + 1;
    }
    let ghost stay = r@;
    let m = new_servers.len();
    let mut j: usize = 0;
    assert(stay + Seq::<Origin>::empty() =~= stay);
    while j < m
        invariant
            m == new_servers@.len(),
            j <= m,
            olds == crate::proxy::server_models(old_servers@),
            news == crate::proxy::server_models(new_servers@),
            r@ == stay + brand_new(olds, news, j as int),
        decreases m - j,
    {
        assert(news[j as int] == new_servers@[j as int]@);
        let old_at = find_server(old_servers, &new_servers[j]);
        let at = find_server(new_servers, &new_servers[j]);
        if old_at.is_none() && at == Some(j) {
            r.push(Origin::Added { new_at: j });
        }
        j = j + 1;
        assert(r@ =~= stay + brand_new(olds, news, j as int));
    }
    r
}

proof fn lemma_kept_in_range(
    old_servers: Seq<crate::proxy::ServerModel>,
    new_servers: Seq<crate::proxy::ServerModel>,
    n: int,
)
    requires
        0 <= n <= old_servers.len(),
        old_servers.len() <= usize::MAX,
        new_servers.len() <= usize::MAX,
    ensures
        forall|k: int|
            0 <= k < kept(old_servers, new_servers, n).len() ==> ({
                &&& #[trigger] kept(old_servers, new_servers, n)[k] matches Origin::Kept {
                    old_at,
                    new_at,
                }
                &&& old_at < n
                &&& new_at < new_servers.len()
                &&& old_servers[old_at as int].identity() == new_servers[new_at as int].identity()
                &&& first_at(old_servers, old_servers[old_at as int].identity()) == Some(
                    old_at as int,
                )
            }),
    decreases n,
{
    if n > 0 {
        lemma_kept_in_range(old_servers, new_servers, n - 1);
        lemma_first_at(new_servers, old_servers[n - 1].identity());
    }
}

proof fn lemma_brand_new_in_range(
    old_servers: Seq<crate::proxy::ServerModel>,
    new_servers: Seq<crate::proxy::ServerModel>,
    n: int,
)
    requires
        0 <= n <= new_servers.len(),
        new_servers.len() <= usize::MAX,
    ensures
        forall|k: int|
            0 <= k < brand_new(old_servers, new_servers, n).len() ==> ({
                &&& #[trigger] brand_new(old_servers, new_servers, n)[k] matches Origin::Added {
                    new_at,
                }
                &&& new_at < n
                &&& first_at(old_servers, new_servers[new_at as int].identity()) is None
                &&& first_at(new_servers, new_servers[new_at as int].identity()) == Some(
                    new_at as int,
                )
            }),
    decreases n,
{
    if n > 0 {
        lemma_brand_new_in_range(old_servers, new_servers, n - 1);
    }
}

/// Servers, each with its meter, and where the records go.
#[derive(Debug)]
pub struct Monitor {
    pub servers: Vec<ProxyServer>,
    pub meters: Vec<Meter>,
    pub graphite: Option<SocketAddr>,
}

impl Monitor {
    /// Whether each server has its meter, in the same place.
    pub open spec fn is_valid(self) -> bool {
        self.meters@.len() == self.servers@.len()
    }
}

/// As many meters without samples.
pub open spec fn are_new_meters(meters: Seq<Meter>, n: nat) -> bool {
    &&& meters.len() == n
    &&& forall|i: int|
        0 <= i < meters.len() ==> (#[trigger] meters[i])@ == Seq::<traffic::TrafficSample>::empty()
}

fn new_meters(n: usize) -> (r: Vec<Meter>)
    ensures
        are_new_meters(r@, n as nat),
{
    let mut r: Vec<Meter> = Vec::new();
    let mut i: usize = 0;
    while i < n
        invariant
            i <= n,
            are_new_meters(r@, i as nat),
        decreases n - i,
    {
        r.push(Meter::new());
        i = i + 1;
    }
    r
}

/// What is told of servers that were not tested yet.
pub open spec fn unknown_status(n: nat) -> Seq<char> {
    "serving ("@ + crate::text::dec(n) + " upstream "@ + (if n > 1 {
        "proxies"@
    } else {
        "proxy"@
    }) + ", state unknown)"@
}

/// What is told of servers that were not tested yet.
pub fn initial_status(n: usize) -> (s: String)
    ensures
        s@ == unknown_status(n as nat),
{
    let mut s = "serving (".to_owned();
    push_dec(&mut s, n as u64);
    s.append(" upstream ");
    s.append(
        if n > 1 {
            "proxies"
        } else {
            "proxy"
        },
    );
    s.append(", state unknown)");
    s
}

impl Monitor {
    /// Watches over some servers.
    pub fn new(servers: Vec<ProxyServer>, graphite: Option<SocketAddr>) -> (r: Monitor)
        ensures
            r.servers == servers,
            r.graphite == graphite,
            are_new_meters(r.meters@, servers@.len()),
            r.is_valid(),
    {
        let meters = new_meters(servers.len());
        Monitor { servers, meters, graphite }
    }

    /// The servers, the best first.
    pub fn servers(&self) -> (r: &Vec<ProxyServer>)
        ensures
            *r == self.servers,
    {
        &self.servers
    }

    /// Puts another list in place of the servers. Those that are in both keep
    /// their status; all get new meters.
    pub fn replace_servers(&mut self, new_servers: Vec<ProxyServer>)
        ensures
            crate::proxy::server_models(final(self).servers@) == replaced_by(
                crate::proxy::server_models(old(self).servers@),
                crate::proxy::server_models(new_servers@),
            ),
            are_new_meters(final(self).meters@, final(self).servers@.len()),
            final(self).is_valid(),
            final(self).graphite == old(self).graphite,
    {
        let ghost olds = crate::proxy::server_models(self.servers@);
        let ghost news = crate::proxy::server_models(new_servers@);
        let plan = merge(&self.servers, &new_servers);
        let n_old = self.servers.len();
        let n_new = new_servers.len();
        proof {
            lemma_kept_in_range(olds, news, olds.len() as int);
            lemma_brand_new_in_range(olds, news, news.len() as int);
        }
        let n = plan.len();
        let mut servers: Vec<ProxyServer> = Vec::new();
        let mut i: usize = 0;
        let ghost expected = replaced_by(olds, news);
        while i < n
            invariant
                n == plan@.len(),
                i <= n,
                n_old == self.servers@.len(),
                n_new == new_servers@.len(),
                olds == crate::proxy::server_models(self.servers@),
                news == crate::proxy::server_models(new_servers@),
                plan@ == origins(olds, news),
                expected == replaced_by(olds, news),
                servers@.len() == i,
                forall|j: int| 0 <= j < i ==> (#[trigger] servers@[j])@ == expected[j],
                forall|k: int|
                    0 <= k < plan@.len() ==> match (#[trigger] plan@[k]) {
                        Origin::Kept { old_at, new_at } => old_at < n_old && new_at < n_new,
                        Origin::Added { new_at } => new_at < n_new,
                    },
                self.graphite == old(self).graphite,
            decreases n - i,
        {
            match plan[i] {
                Origin::Kept { old_at, new_at } => {
                    let mut server = self.servers[old_at].clone();
                    server.copy_config_from(&new_servers[new_at]);
                    servers.push(server);
                },
                Origin::Added { new_at } => {
                    servers.push(new_servers[new_at].clone());
                },
            }
            i = i + 1;
        }
        assert(crate::proxy::server_models(servers@) =~= expected);
        self.meters = new_meters(servers.len());
        self.servers = servers;
    }

    /// Puts the servers in order, with the given random numbers. They are sorted
    /// by their scores exactly where these put no server before a better one. The
    /// meters stay with their servers.
    pub fn sort_servers(&mut self, jitter: &Vec<u8>) -> (order: Vec<usize>)
        requires
            old(self).is_valid(),
            jitter@.len() == old(self).servers@.len(),
        ensures
            final(self).is_valid(),
            puts_in_order(
                order@,
                server_keys(crate::proxy::server_models(old(self).servers@), jitter@),
            ),
            crate::proxy::server_models(final(self).servers@) == reordered(
                crate::proxy::server_models(old(self).servers@),
                order@,
            ),
            put_by_score(
                crate::proxy::server_models(old(self).servers@),
                crate::proxy::server_models(final(self).servers@),
            ),
            by_score(crate::proxy::server_models(final(self).servers@)) <==> scores_decide(
                crate::proxy::server_models(old(self).servers@),
                jitter@,
            ),
            traffic::meter_models(final(self).meters@) == reordered(
                traffic::meter_models(old(self).meters@),
                order@,
            ),
            final(self).graphite == old(self).graphite,
    {
        let n = self.servers.len();
        let ghost models = crate::proxy::server_models(self.servers@);
        let ghost places = server_keys(models, jitter@);
        let mut keys: Vec<i64> = Vec::new();
        let mut i: usize = 0;
        while i < n
            invariant
                n == self.servers@.len(),
                n == jitter@.len(),
                i <= n,
                models == crate::proxy::server_models(self.servers@),
                places == server_keys(models, jitter@),
                keys@.len() == i,
                forall|j: int| 0 <= j < i ==> (#[trigger] keys@[j]) == places[j],
            decreases n - i,
        {
            assert(models[i as int] == self.servers@[i as int]@);
            let score: i64 = match self.servers[i].score() {
                Some(score) => score as i64,
                None => i32::MAX as i64,
            };
            keys.push(score - ((jitter[i] % 30) as i64));
            i = i + 1;
        }
        assert(key_values(keys@) =~= places);
        let order = order_of(&keys);
        proof {
            lemma_put_by_score(models, jitter@, order@);
            lemma_sorted_by_score(models, jitter@, order@);
        }
        let mut servers: Vec<ProxyServer> = Vec::new();
        let mut k: usize = 0;
        let ghost expected = reordered(models, order@);
        let mut meters: Vec<Meter> = Vec::new();
        let ghost samples = traffic::meter_models(self.meters@);
        let ghost expected_samples = reordered(samples, order@);
        while k < n
            invariant
                n == self.servers@.len(),
                n == self.meters@.len(),
                k <= n,
                order@.len() == n,
                models == crate::proxy::server_models(self.servers@),
                expected == reordered(models, order@),
                samples == traffic::meter_models(self.meters@),
                expected_samples == reordered(samples, order@),
                meters@.len() == k,
                forall|j: int| 0 <= j < k ==> (#[trigger] meters@[j])@ == expected_samples[j],
                forall|i: int| 0 <= i < order@.len() ==> (#[trigger] order@[i]) < n,
                servers@.len() == k,
                forall|j: int| 0 <= j < k ==> (#[trigger] servers@[j])@ == expected[j],
            decreases n - k,
        {
            assert(models[order@[k as int] as int] == self.servers@[order@[k as int] as int]@);
            servers.push(self.servers[order[k]].clone());
            assert(samples[order@[k as int] as int] == self.meters@[order@[k as int] as int]@);
            meters.push(self.meters[order[k]].clone());
            k = k + 1;
        }
        assert(crate::proxy::server_models(servers@) =~= expected);
        assert(traffic::meter_models(meters@) =~= expected_samples);
        self.servers = servers;
        self.meters = meters;
        order
    }

    /// Puts the servers in order of their scores, with some randomness among
    /// those that are almost equal. Chance decides which one of two servers comes
    /// first whose scores are less than 30 apart, so nothing is stated of these
    /// but that they are sorted by their scores exactly where the numbers that
    /// were drawn put no server before a better one.
    pub fn resort(&mut self) -> (order: Vec<usize>)
        requires
            old(self).is_valid(),
        ensures
            final(self).is_valid(),
            exists|jitter: Seq<u8>|
                {
                    &&& jitter.len() == old(self).servers@.len()
                    &&& puts_in_order(
                        order@,
                        #[trigger] server_keys(
                            crate::proxy::server_models(old(self).servers@),
                            jitter,
                        ),
                    )
                    &&& by_score(crate::proxy::server_models(final(self).servers@))
                        <==> scores_decide(
                        crate::proxy::server_models(old(self).servers@),
                        jitter,
                    )
                },
            crate::proxy::server_models(final(self).servers@) == reordered(
                crate::proxy::server_models(old(self).servers@),
                order@,
            ),
            put_by_score(
                crate::proxy::server_models(old(self).servers@),
                crate::proxy::server_models(final(self).servers@),
            ),
            traffic::meter_models(final(self).meters@) == reordered(
                traffic::meter_models(old(self).meters@),
                order@,
            ),
            final(self).graphite == old(self).graphite,
    {
        let n = self.servers.len();
        let mut jitter: Vec<u8> = Vec::new();
        while jitter.len() < n
            invariant
                jitter@.len() <= n,
            decreases n - jitter@.len(),
        {
            jitter.push(random_byte());
        }
        self.sort_servers(&jitter)
    }

    /// Puts another list in place of the servers, and puts it in order. Those
    /// that are in both lists keep their status; all get new meters.
    pub fn update_servers(&mut self, new_servers: Vec<ProxyServer>) -> (order: Vec<usize>)
        ensures
            final(self).is_valid(),
            ({
                let merged = replaced_by(
                    crate::proxy::server_models(old(self).servers@),
                    crate::proxy::server_models(new_servers@),
                );
                &&& exists|jitter: Seq<u8>|
                    {
                        &&& jitter.len() == merged.len()
                        &&& puts_in_order(order@, #[trigger] server_keys(merged, jitter))
                        &&& by_score(crate::proxy::server_models(final(self).servers@))
                            <==> scores_decide(merged, jitter)
                    }
                &&& crate::proxy::server_models(final(self).servers@) == reordered(merged, order@)
                &&& put_by_score(merged, crate::proxy::server_models(final(self).servers@))
            }),
            are_new_meters(final(self).meters@, final(self).servers@.len()),
            final(self).graphite == old(self).graphite,
    {
        self.replace_servers(new_servers);
        let ghost merged = crate::proxy::server_models(self.servers@);
        let ghost before = self.meters@;
        let order = self.resort();
        proof {
            let samples = traffic::meter_models(before);
            let jitter = choose|jitter: Seq<u8>|
                {
                    &&& jitter.len() == merged.len()
                    &&& puts_in_order(order@, #[trigger] server_keys(merged, jitter))
                    &&& by_score(crate::proxy::server_models(self.servers@)) <==> scores_decide(
                        merged,
                        jitter,
                    )
                };
            assert(order@.len() == server_keys(merged, jitter).len());
            assert(merged.len() == before.len());
            assert(traffic::meter_models(self.meters@).len() == reordered(samples, order@).len());
            assert(self.meters@.len() == order@.len());
            assert forall|i: int| 0 <= i < self.meters@.len() implies (
            #[trigger] self.meters@[i])@ == Seq::<traffic::TrafficSample>::empty() by {
                let after = traffic::meter_models(self.meters@);
                assert(after == reordered(samples, order@));
                assert(after[i] == self.meters@[i]@);
                assert(order@[i] < before.len());
                assert(samples[order@[i] as int] == before[order@[i] as int]@);
            }
        }
        order
    }

    /// Loads the list of servers once more, with those of a file where its text is
    /// given, and puts it in place of the servers. Where it cannot be loaded all
    /// stays as it is. None where the tag of a server cannot be one.
    pub fn reload(&mut self, config: &ServerListConfig, text: Option<&str>) -> (r: Option<
        Result<(), ServerListError>,
    >)
        ensures
            match crate::server::list_result(
                crate::proxy::server_models(config.cli_servers@),
                crate::server::text_sections(text),
                config.default_test_dns,
                config.default_max_wait,
                config.allow_direct,
            ) {
                None => r is None && *final(self) == *old(self),
                Some(Err(e)) => r == Some(Err::<(), ServerListError>(e)) && *final(self) == *old(
                    self,
                ),
                Some(Ok(servers)) => {
                    let merged = replaced_by(
                        crate::proxy::server_models(old(self).servers@),
                        servers,
                    );
                    &&& r == Some(Ok::<(), ServerListError>(()))
                    &&& final(self).is_valid()
                    &&& exists|jitter: Seq<u8>, order: Seq<usize>|
                        {
                            &&& jitter.len() == merged.len()
                            &&& puts_in_order(order, #[trigger] server_keys(merged, jitter))
                            &&& by_score(crate::proxy::server_models(final(self).servers@))
                                <==> scores_decide(merged, jitter)
                            &&& crate::proxy::server_models(final(self).servers@)
                                == #[trigger] reordered(merged, order)
                        }
                    &&& put_by_score(merged, crate::proxy::server_models(final(self).servers@))
                    &&& are_new_meters(final(self).meters@, final(self).servers@.len())
                    &&& final(self).graphite == old(self).graphite
                },
            },
    {
        match config.load(text) {
            None => None,
            Some(Err(e)) => Some(Err(e)),
            Some(Ok(servers)) => {
                let ghost merged = replaced_by(
                    crate::proxy::server_models(self.servers@),
                    crate::proxy::server_models(servers@),
                );
                let order = self.update_servers(servers);
                proof {
                    let jitter = choose|jitter: Seq<u8>|
                        {
                            &&& jitter.len() == merged.len()
                            &&& puts_in_order(order@, #[trigger] server_keys(merged, jitter))
                            &&& by_score(crate::proxy::server_models(self.servers@))
                                <==> scores_decide(merged, jitter)
                        };
                    assert(puts_in_order(order@, server_keys(merged, jitter)));
                    assert(crate::proxy::server_models(self.servers@) == reordered(merged, order@));
                }
                Some(Ok(()))
            },
        }
    }

    /// Takes a sample of the traffic of a server.
    pub fn add_sample(&mut self, at: usize, time: Duration)
        requires
            old(self).is_valid(),
            at < old(self).servers@.len(),
        ensures
            final(self).is_valid(),
            final(self).servers == old(self).servers,
            final(self).graphite == old(self).graphite,
            traffic::meter_models(final(self).meters@) == traffic::meter_models(
                old(self).meters@,
            ).update(
                at as int,
                traffic::sampled(
                    old(self).meters@[at as int]@,
                    (TrafficSample { time, amt: old(self).servers@[at as int]@.traffic.amount() }),
                ),
            ),
    {
        let amt = self.servers[at].traffic();
        let mut meter = self.meters[at].clone();
        meter.add_sample(TrafficSample { time, amt });
        let ghost before = traffic::meter_models(self.meters@);
        self.meters.set(at, meter);
        assert(traffic::meter_models(self.meters@) =~= before.update(at as int, meter@));
    }

    /// What the throughput of a server is measured from. None where there is no
    /// sample.
    pub fn throughput(&self, at: usize, time: Duration) -> (r: Option<
        (Traffic, Duration, Duration),
    >)
        requires
            self.is_valid(),
            at < self.servers@.len(),
            traffic::is_measurable(
                self.meters@[at as int]@,
                self.servers@[at as int]@.traffic.amount(),
            ),
        ensures
            r == traffic::measurement(
                self.meters@[at as int]@,
                (TrafficSample { time, amt: self.servers@[at as int]@.traffic.amount() }),
            ),
    {
        let amt = self.servers[at].traffic();
        self.meters[at].throughput(TrafficSample { time, amt })
    }

    /// The records of all servers.
    pub fn records(&self, now: Option<Duration>) -> (r: Vec<Record>)
        requires
            forall|i: int|
                0 <= i < self.servers@.len() ==> crate::proxy::is_tag(
                    (#[trigger] self.servers@[i])@.tag,
                ),
        ensures
            graphite::record_models(r@) == all_records(
                crate::proxy::server_models(self.servers@),
                now,
            ),
    {
        let n = self.servers.len();
        let ghost models = crate::proxy::server_models(self.servers@);
        let mut r: Vec<Record> = Vec::new();
        let mut i: usize = 0;
        proof {
            assert(models.take(0) =~= Seq::<crate::proxy::ServerModel>::empty());
            assert(graphite::record_models(r@) =~= all_records(models.take(0), now));
        }
        while i < n
            invariant
                n == self.servers@.len(),
                i <= n,
                models == crate::proxy::server_models(self.servers@),
                graphite::record_models(r@) == all_records(models.take(i as int), now),
                forall|i: int|
                    0 <= i < self.servers@.len() ==> crate::proxy::is_tag(
                        (#[trigger] self.servers@[i])@.tag,
                    ),
            decreases n - i,
        {
            let mut more = records_of(&self.servers[i], now);
            let ghost before = graphite::record_models(r@);
            let ghost new = graphite::record_models(more@);
            r.append(&mut more);
            proof {
                assert(graphite::record_models(r@) =~= before + new);
                assert(models.take(i + 1).drop_last() =~= models.take(i as int));
                assert(models.take(i + 1).last() == self.servers@[i as int]@);
            }
            i = i + 1;
        }
        assert(models.take(n as int) =~= models);
        r
    }
}

/// The records of some servers, one server after the other.
pub open spec fn all_records(
    servers: Seq<crate::proxy::ServerModel>,
    now: Option<Duration>,
) -> Seq<graphite::RecordModel>
    decreases servers.len(),
{
    if servers.len() == 0 {
        Seq::empty()
    } else {
        all_records(servers.drop_last(), now) + graphite::server_records(servers.last(), now)
    }
}

/// The tags of the first `n` servers with their scores.
pub open spec fn scores_text(servers: Seq<crate::proxy::ServerModel>, n: nat) -> Seq<char>
    decreases n,
{
    if n == 0 {
        Seq::empty()
    } else {
        let s = servers[n - 1];
        scores_text(servers, (n - 1) as nat) + " "@ + s.tag + ": "@ + (match s.status.score {
            None => "--"@,
            Some(score) => crate::text::signed_dec(score as int),
        }) + ","@
    }
}

/// The tags of the first five servers with their scores, and commas between
/// them.
pub open spec fn stats_text(servers: Seq<crate::proxy::ServerModel>) -> Seq<char> {
    let n = if servers.len() < 5 {
        servers.len()
    } else {
        5
    };
    let s = scores_text(servers, n);
    if s.len() == 0 {
        s
    } else {
        s.drop_last()
    }
}

/// The tags of the first five servers with their scores.
pub fn info_stats(servers: &Vec<ProxyServer>) -> (s: String)
    ensures
        s@ == stats_text(crate::proxy::server_models(servers@)),
{
    let n = if servers.len() < 5 {
        servers.len()
    } else {
        5
    };
    let ghost models = crate::proxy::server_models(servers@);
    let mut s = String::new();
    let mut i: usize = 0;
    assert(s@ =~= Seq::<char>::empty());
    while i < n
        invariant
            n <= servers@.len(),
            i <= n,
            models == crate::proxy::server_models(servers@),
            s@ == scores_text(models, i as nat),
        decreases n - i,
    {
        assert(models[i as int] == servers@[i as int]@);
        s.append(" ");
        s.append(servers[i].tag.as_str());
        s.append(": ");
        match servers[i].score() {
            None => s.append("--"),
            Some(score) => push_signed(&mut s, score as i64),
        }
        s.append(",");
        i = i + 1;
    }
    let len = s.as_str().unicode_len();
    if len == 0 {
        return s;
    }
    let r = crate::text::front(s.as_str(), len - 1).to_owned();
    assert(r@ =~= s@.drop_last());
    r
}

// ---- laws ----

/// A server that is in both lists keeps its status and its traffic, and takes
/// over what was set for the new one.
pub proof fn lemma_status_is_kept(
    old_servers: Seq<crate::proxy::ServerModel>,
    new_servers: Seq<crate::proxy::ServerModel>,
    i: int,
    j: int,
)
    requires
        old_servers.len() <= usize::MAX,
        new_servers.len() <= usize::MAX,
        0 <= i < old_servers.len(),
        0 <= j < new_servers.len(),
        first_at(old_servers, old_servers[i].identity()) == Some(i),
        first_at(new_servers, old_servers[i].identity()) == Some(j),
    ensures
        replaced_by(old_servers, new_servers).contains(
            crate::proxy::ServerModel { config: new_servers[j].config, ..old_servers[i] },
        ),
{
    let plan = origins(old_servers, new_servers);
    let stay = kept(old_servers, new_servers, old_servers.len() as int);
    lemma_kept_contains(old_servers, new_servers, old_servers.len() as int, i, j);
    let o = Origin::Kept { old_at: i as usize, new_at: j as usize };
    let k = choose|k: int| 0 <= k < stay.len() && stay[k] == o;
    assert(plan[k] == o);
    assert(replaced_by(old_servers, new_servers)[k] == from_origin(old_servers, new_servers, o));
}

proof fn lemma_kept_contains(
    old_servers: Seq<crate::proxy::ServerModel>,
    new_servers: Seq<crate::proxy::ServerModel>,
    n: int,
    i: int,
    j: int,
)
    requires
        0 <= i < n <= old_servers.len(),
        first_at(old_servers, old_servers[i].identity()) == Some(i),
        first_at(new_servers, old_servers[i].identity()) == Some(j),
    ensures
        kept(old_servers, new_servers, n).contains(
            Origin::Kept { old_at: i as usize, new_at: j as usize },
        ),
    decreases n,
{
    let o = Origin::Kept { old_at: i as usize, new_at: j as usize };
    let all = kept(old_servers, new_servers, n);
    if i == n - 1 {
        assert(all.last() == o);
        assert(all[all.len() - 1] == o);
    } else {
        lemma_kept_contains(old_servers, new_servers, n - 1, i, j);
        let front = kept(old_servers, new_servers, n - 1);
        let k = choose|k: int| 0 <= k < front.len() && front[k] == o;
        assert(all[k] == o);
    }
}

proof fn lemma_brand_new_contains(
    old_servers: Seq<crate::proxy::ServerModel>,
    new_servers: Seq<crate::proxy::ServerModel>,
    n: int,
    j: int,
)
    requires
        0 <= j < n <= new_servers.len(),
        first_at(old_servers, new_servers[j].identity()) is None,
        first_at(new_servers, new_servers[j].identity()) == Some(j),
    ensures
        brand_new(old_servers, new_servers, n).contains(Origin::Added { new_at: j as usize }),
    decreases n,
{
    let o = Origin::Added { new_at: j as usize };
    let all = brand_new(old_servers, new_servers, n);
    if j == n - 1 {
        assert(all[all.len() - 1] == o);
    } else {
        lemma_brand_new_contains(old_servers, new_servers, n - 1, j);
        let front = brand_new(old_servers, new_servers, n - 1);
        let k = choose|k: int| 0 <= k < front.len() && front[k] == o;
        assert(all[k] == o);
    }
}

/// Servers that stay are taken in the order of the old list, none of them twice.
proof fn lemma_kept_in_order(
    old_servers: Seq<crate::proxy::ServerModel>,
    new_servers: Seq<crate::proxy::ServerModel>,
    n: int,
)
    requires
        0 <= n <= old_servers.len(),
        old_servers.len() <= usize::MAX,
        new_servers.len() <= usize::MAX,
    ensures
        forall|k: int, l: int|
            0 <= k < l < kept(old_servers, new_servers, n).len() ==> (#[trigger] kept(
                old_servers,
                new_servers,
                n,
            )[k])->old_at < (#[trigger] kept(old_servers, new_servers, n)[l])->old_at,
    decreases n,
{
    if n > 0 {
        lemma_kept_in_order(old_servers, new_servers, n - 1);
        lemma_kept_in_range(old_servers, new_servers, n - 1);
        let front = kept(old_servers, new_servers, n - 1);
        let all = kept(old_servers, new_servers, n);
        assert forall|k: int, l: int| 0 <= k < l < all.len() implies (
        #[trigger] all[k])->old_at < (#[trigger] all[l])->old_at by {
            assert(all[k] == front[k]);
            if l < front.len() {
                assert(all[l] == front[l]);
            }
        }
    }
}

/// New servers are taken in the order of the new list, none of them twice.
proof fn lemma_brand_new_in_order(
    old_servers: Seq<crate::proxy::ServerModel>,
    new_servers: Seq<crate::proxy::ServerModel>,
    n: int,
)
    requires
        0 <= n <= new_servers.len(),
        new_servers.len() <= usize::MAX,
    ensures
        forall|k: int, l: int|
            0 <= k < l < brand_new(old_servers, new_servers, n).len() ==> (#[trigger] brand_new(
                old_servers,
                new_servers,
                n,
            )[k])->Added_new_at < (#[trigger] brand_new(
                old_servers,
                new_servers,
                n,
            )[l])->Added_new_at,
    decreases n,
{
    if n > 0 {
        lemma_brand_new_in_order(old_servers, new_servers, n - 1);
        lemma_brand_new_in_range(old_servers, new_servers, n - 1);
        let front = brand_new(old_servers, new_servers, n - 1);
        let all = brand_new(old_servers, new_servers, n);
        assert forall|k: int, l: int| 0 <= k < l < all.len() implies (
        #[trigger] all[k])->Added_new_at < (#[trigger] all[l])->Added_new_at by {
            assert(all[k] == front[k]);
            if l < front.len() {
                assert(all[l] == front[l]);
            }
        }
    }
}

/// Each server of the new list is there exactly once: no two servers of the
/// result are the same, and none of the new list is missing.
pub proof fn lemma_each_new_server_once(
    old_servers: Seq<crate::proxy::ServerModel>,
    new_servers: Seq<crate::proxy::ServerModel>,
)
    requires
        old_servers.len() <= usize::MAX,
        new_servers.len() <= usize::MAX,
    ensures
        ({
            let r = replaced_by(old_servers, new_servers);
            &&& forall|k: int, l: int|
                0 <= k < l < r.len() ==> (#[trigger] r[k]).identity() != (
                #[trigger] r[l]).identity()
            &&& forall|j: int|
                0 <= j < new_servers.len() ==> exists|k: int|
                    0 <= k < r.len() && (#[trigger] r[k]).identity() == (
                    #[trigger] new_servers[j]).identity()
        }),
{
    let r = replaced_by(old_servers, new_servers);
    let plan = origins(old_servers, new_servers);
    let m = old_servers.len() as int;
    let n = new_servers.len() as int;
    let stay = kept(old_servers, new_servers, m);
    let come = brand_new(old_servers, new_servers, n);
    lemma_kept_in_range(old_servers, new_servers, m);
    lemma_kept_in_order(old_servers, new_servers, m);
    lemma_brand_new_in_range(old_servers, new_servers, n);
    lemma_brand_new_in_order(old_servers, new_servers, n);
    assert forall|k: int, l: int| 0 <= k < l < r.len() implies (#[trigger] r[k]).identity() != (
    #[trigger] r[l]).identity() by {
        assert(r[k] == from_origin(old_servers, new_servers, plan[k]));
        assert(r[l] == from_origin(old_servers, new_servers, plan[l]));
        if l < stay.len() {
            assert(plan[k] == stay[k] && plan[l] == stay[l]);
        } else if k >= stay.len() {
            assert(plan[k] == come[k - stay.len()] && plan[l] == come[l - stay.len()]);
        } else {
            assert(plan[k] == stay[k] && plan[l] == come[l - stay.len()]);
        }
    }
    assert forall|j: int| 0 <= j < new_servers.len() implies exists|k: int|
        0 <= k < r.len() && (#[trigger] r[k]).identity() == (
        #[trigger] new_servers[j]).identity() by {
        let id = new_servers[j].identity();
        lemma_first_at(old_servers, id);
        lemma_first_at(new_servers, id);
        let first = first_at(new_servers, id).unwrap();
        match first_at(old_servers, id) {
            Some(i) => {
                lemma_kept_contains(old_servers, new_servers, m, i, first);
                let o = Origin::Kept { old_at: i as usize, new_at: first as usize };
                let k = choose|k: int| 0 <= k < stay.len() && stay[k] == o;
                assert(plan[k] == o);
                assert(r[k].identity() == id);
            },
            None => {
                lemma_brand_new_contains(old_servers, new_servers, n, first);
                let o = Origin::Added { new_at: first as usize };
                let k = choose|k: int| 0 <= k < come.len() && come[k] == o;
                assert(plan[stay.len() + k] == o);
                assert(r[stay.len() + k].identity() == id);
            },
        }
    }
}

/// Each server of the result is one of the new list.
pub proof fn lemma_only_new_servers_stay(
    old_servers: Seq<crate::proxy::ServerModel>,
    new_servers: Seq<crate::proxy::ServerModel>,
    k: int,
)
    requires
        old_servers.len() <= usize::MAX,
        new_servers.len() <= usize::MAX,
        0 <= k < replaced_by(old_servers, new_servers).len(),
    ensures
        exists|j: int|
            0 <= j < new_servers.len() && (#[trigger] new_servers[j]).identity() == replaced_by(
                old_servers,
                new_servers,
            )[k].identity(),
{
    lemma_kept_in_range(old_servers, new_servers, old_servers.len() as int);
    lemma_brand_new_in_range(old_servers, new_servers, new_servers.len() as int);
    let stay = kept(old_servers, new_servers, old_servers.len() as int);
    let come = brand_new(old_servers, new_servers, new_servers.len() as int);
    let plan = origins(old_servers, new_servers);
    if k < stay.len() {
        assert(plan[k] == stay[k]);
    } else {
        assert(plan[k] == come[k - stay.len()]);
    }
    match plan[k] {
        Origin::Kept { old_at, new_at } => {
            assert(new_servers[new_at as int].identity() == replaced_by(
                old_servers,
                new_servers,
            )[k].identity());
        },
        Origin::Added { new_at } => {
            assert(new_servers[new_at as int].identity() == replaced_by(
                old_servers,
                new_servers,
            )[k].identity());
        },
    }
}

/// No server is put more than 29 places of score before its own, and one without
/// a score is put behind every other whose score is not nearly as bad.
pub proof fn lemma_how_far_chance_goes(score: Option<i32>, jitter: u8)
    ensures
        score matches Some(s) ==> s - 29 <= sort_key(score, jitter) <= s,
        score is None ==> 0x7fff_ffff - 29 <= sort_key(score, jitter) <= 0x7fff_ffff,
        sort_key(score, 0) == sort_key(score, 30),
        jitter < 30 ==> sort_key(score, jitter) + jitter == sort_key(score, 0),
{
}

/// A server is found at the first place where it stands, and nowhere where it
/// does not.
pub proof fn lemma_first_place(
    servers: Seq<crate::proxy::ServerModel>,
    id: crate::proxy::ServerIdentity,
    i: int,
)
    ensures
        0 <= i < servers.len() && servers[i].identity() == id && (forall|j: int|
            0 <= j < i ==> (#[trigger] servers[j]).identity() != id) ==> first_at(servers, id)
            == Some(i),
        (forall|j: int| 0 <= j < servers.len() ==> (#[trigger] servers[j]).identity() != id)
            ==> first_at(servers, id) is None,
        (exists|j: int| 0 <= j < i && j < servers.len() && (#[trigger] servers[j]).identity() == id)
            ==> first_at(servers, id) != Some(i),
{
    lemma_first_at(servers, id);
    if 0 <= i < servers.len() && servers[i].identity() == id && (forall|j: int|
        0 <= j < i ==> (#[trigger] servers[j]).identity() != id) {
        lemma_first_at_is(servers, id, i);
    }
}

/// The records of one server more come behind those of the others.
pub proof fn lemma_records_in_order(
    servers: Seq<crate::proxy::ServerModel>,
    server: crate::proxy::ServerModel,
    now: Option<Duration>,
)
    ensures
        all_records(servers.push(server), now) == all_records(servers, now)
            + graphite::server_records(server, now),
        all_records(Seq::empty(), now) == Seq::<graphite::RecordModel>::empty(),
{
    assert(servers.push(server).drop_last() =~= servers);
}

/// Of a server more its tag and its score are told behind a comma, as long as
/// there are no more than five; of the others nothing is told.
pub proof fn lemma_five_servers_are_told(
    servers: Seq<crate::proxy::ServerModel>,
    server: crate::proxy::ServerModel,
)
    ensures
        servers.len() >= 5 ==> stats_text(servers.push(server)) == stats_text(servers),
        0 < servers.len() < 5 ==> stats_text(servers.push(server)) == stats_text(servers) + (","@
            + " "@ + server.tag + ": "@ + match server.status.score {
            None => "--"@,
            Some(score) => crate::text::signed_dec(score as int),
        }),
        servers.len() == 0 ==> stats_text(servers) == Seq::<char>::empty(),
{
    reveal_strlit(",");
    let more = servers.push(server);
    let n = servers.len();
    let score = match server.status.score {
        None => "--"@,
        Some(score) => crate::text::signed_dec(score as int),
    };
    if n >= 5 {
        lemma_scores_of_first(servers, more, 5);
    } else {
        lemma_scores_of_first(servers, more, n);
        let before = scores_text(servers, n);
        assert(more[n as int] == server);
        let after = scores_text(more, n + 1);
        assert(after == before + " "@ + server.tag + ": "@ + score + ","@);
        if n > 0 {
            assert(before.len() > 0 && before.last() == ',');
            assert(after.drop_last() =~= before.drop_last() + (","@ + " "@ + server.tag + ": "@
                + score));
        }
    }
}

proof fn lemma_scores_of_first(
    a: Seq<crate::proxy::ServerModel>,
    b: Seq<crate::proxy::ServerModel>,
    n: nat,
)
    requires
        n <= a.len(),
        n <= b.len(),
        forall|i: int| 0 <= i < n ==> a[i] == b[i],
    ensures
        scores_text(a, n) == scores_text(b, n),
    decreases n,
{
    if n > 0 {
        lemma_scores_of_first(a, b, (n - 1) as nat);
    }
}

/// A lower score is better, and any score is better than none.
pub proof fn lemma_which_score_is_better(a: i32, b: i32, other: Option<i32>)
    ensures
        is_better(Some(a), Some(b)) <==> a < b,
        is_better(Some(a), None),
        !is_better(None, other),
{
}

/// Of servers that were not tested yet it is told how many there are.
pub proof fn lemma_untested_servers(n: nat)
    ensures
        n > 1 ==> unknown_status(n) == "serving ("@ + crate::text::dec(n)
            + " upstream proxies, state unknown)"@,
        n <= 1 ==> unknown_status(n) == "serving ("@ + crate::text::dec(n)
            + " upstream proxy, state unknown)"@,
{
    reveal_strlit(" upstream ");
    reveal_strlit("proxies");
    reveal_strlit("proxy");
    reveal_strlit(", state unknown)");
    reveal_strlit(" upstream proxies, state unknown)");
    reveal_strlit(" upstream proxy, state unknown)");
    let s = "serving ("@ + crate::text::dec(n);
    assert(" upstream "@ + "proxies"@ + ", state unknown)"@
        =~= " upstream proxies, state unknown)"@);
    assert(" upstream "@ + "proxy"@ + ", state unknown)"@ =~= " upstream proxy, state unknown)"@);
    assert(unknown_status(n) =~= s + (" upstream "@ + (if n > 1 {
        "proxies"@
    } else {
        "proxy"@
    }) + ", state unknown)"@));
}

} // verus!
