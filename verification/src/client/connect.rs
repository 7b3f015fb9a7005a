//! Trying several proxy servers.

use vstd::prelude::*;

verus! {

/// A number brought between two others.
pub open spec fn clamped(n: nat, low: nat, high: nat) -> nat {
    if n < low {
        low
    } else if n > high {
        high
    } else {
        n
    }
}

/// Brings a number between two others.
pub fn clamp(n: usize, low: usize, high: usize) -> (r: usize)
    ensures
        r == clamped(n as nat, low as nat, high as nat),
{
    if n < low {
        low
    } else if n > high {
        high
    } else {
        n
    }
}

/// What to do next.
#[derive(Debug, Clone, Copy, PartialEq, Eq, Structural)]
pub enum Decision {
    /// Wait for the servers that are being tried.
    Wait,
    /// Try further servers.
    StartMore,
    /// Give up: the last error says why, or no server was there.
    GiveUp { had_error: bool },
}

/// Which of some servers are being tried. The servers have numbers, and they are
/// tried in the order of these.
#[derive(Debug)]
pub struct TryConnectAll {
    parallel_n: usize,
    total: usize,
    next: usize,
    connects: Vec<usize>,
    had_error: bool,
}

/// The model of which servers are being tried.
pub struct TryModel {
    /// How many may be tried at the same time.
    pub parallel_n: nat,
    /// How many servers there are.
    pub total: nat,
    /// The number of the first one that was not tried yet.
    pub next: nat,
    /// The numbers of those that are being tried.
    pub connects: Seq<usize>,
    /// Whether one has failed.
    pub had_error: bool,
}

impl View for TryConnectAll {
    type V = TryModel;

    closed spec fn view(&self) -> TryModel {
        TryModel {
            parallel_n: self.parallel_n as nat,
            total: self.total as nat,
            next: self.next as nat,
            connects: self.connects@,
            had_error: self.had_error,
        }
    }
}

impl TryModel {
    /// No server is tried twice, no more than allowed are tried at a time, and
    /// each one that was tried is being tried or has failed.
    pub open spec fn is_valid(self) -> bool {
        &&& self.parallel_n >= 1
        &&& self.next <= self.total
        &&& self.connects.len() <= self.parallel_n
        &&& self.connects.no_duplicates()
        &&& forall|i: int|
            0 <= i < self.connects.len() ==> (#[trigger] self.connects[i]) < self.next
        &&& self.next > self.connects.len() ==> self.had_error
    }
}

/// How many servers are started next.
pub open spec fn started(t: TryModel) -> nat {
    let room = t.parallel_n - t.connects.len();
    let left = t.total - t.next;
    if room <= 0 || left <= 0 {
        0
    } else if room < left {
        room as nat
    } else {
        left as nat
    }
}

/// The numbers from `from` on, `n` of them.
pub open spec fn numbers(from: nat, n: nat) -> Seq<usize> {
    Seq::new(n, |i: int| (from + i) as usize)
}

/// What to do next.
pub open spec fn decision(t: TryModel) -> Decision {
    if t.connects.len() == 0 && t.next == t.total {
        Decision::GiveUp { had_error: t.had_error }
    } else if t.connects.len() >= t.parallel_n || t.next == t.total {
        Decision::Wait
    } else {
        Decision::StartMore
    }
}

/// What is known before a server was tried.
pub open spec fn first_try(total: nat, parallel_n: nat, wait_response: bool) -> TryModel {
    TryModel {
        parallel_n: if wait_response {
            clamped(parallel_n, 1, total)
        } else {
            1
        },
        total,
        next: 0,
        connects: Seq::empty(),
        had_error: false,
    }
}

/// What is known once further servers are being tried.
pub open spec fn begun(t: TryModel) -> TryModel {
    TryModel {
        next: t.next + started(t),
        connects: t.connects + numbers(t.next, started(t)),
        ..t
    }
}

/// What is known once a server that was being tried failed.
pub open spec fn failed(t: TryModel, at: int) -> TryModel {
    TryModel { connects: t.connects.remove(at), had_error: true, ..t }
}

/// Prepares to try some servers. Where no answer is waited for, they are tried
/// one after the other.
pub fn try_connect_all(total: usize, parallel_n: usize, wait_response: bool) -> (r: TryConnectAll)
    requires
        wait_response ==> total >= 1,
    ensures
        r@ == (TryModel {
            parallel_n: clamped(
                parallel_n as nat,
                1,
                if wait_response {
                    total as nat
                } else {
                    1
                },
            ),
            total: total as nat,
            next: 0,
            connects: Seq::empty(),
            had_error: false,
        }),
        r@ == first_try(total as nat, parallel_n as nat, wait_response),
        r@.is_valid(),
{
    let parallel_n = clamp(
        parallel_n,
        1,
        if wait_response {
            total
        } else {
            1
        },
    );
    TryConnectAll { parallel_n, total, next: 0, connects: Vec::new(), had_error: false }
}

impl TryConnectAll {
    #[verifier::type_invariant]
    closed spec fn inv(self) -> bool {
        self@.is_valid()
    }

    /// Starts to try as many servers as may be tried at the same time, and says
    /// which ones.
    pub fn start_more(&mut self) -> (r: Vec<usize>)
        ensures
            r@ == numbers(old(self)@.next, started(old(self)@)),
            final(self)@ == (TryModel {
                next: old(self)@.next + started(old(self)@),
                connects: old(self)@.connects + r@,
                ..old(self)@
            }),
            final(self)@ == begun(old(self)@),
            final(self)@.is_valid(),
            old(self)@.is_valid(),
    {
        proof {
            use_type_invariant(&*self);
        }
        let ghost before = self@;
        let ghost n = started(before);
        let total = self.total;
        let parallel_n = self.parallel_n;
        let mut connects: Vec<usize> = self.connects.clone();
        assert(connects@ =~= before.connects);
        let mut next = self.next;
        let mut r: Vec<usize> = Vec::new();
        let ghost k = before.connects.len();
        while next < total && connects.len() < parallel_n
            invariant
                before.is_valid(),
                n == started(before),
                total == before.total,
                parallel_n == before.parallel_n,
                k == before.connects.len(),
                next == before.next + r@.len(),
                next <= total,
                r@.len() <= n,
                r@ == numbers(before.next, r@.len()),
                connects@ == before.connects + r@,
                connects@.len() <= parallel_n,
            decreases total - next,
        {
            r.push(next);
            connects.push(next);
            next = next + 1;
            assert(r@ =~= numbers(before.next, r@.len()));
            assert(connects@ =~= before.connects + r@);
        }
        proof {
            assert(r@.len() == n);
            assert forall|i: int, j: int|
                0 <= i < connects@.len() && 0 <= j < connects@.len() && i != j implies
                connects@[i] != connects@[j] by {
                if i < k && j < k {
                    assert(before.connects[i] != before.connects[j]);
                } else if i < k {
                    assert(before.connects[i] < before.next);
                } else if j < k {
                    assert(before.connects[j] < before.next);
                }
            }
            assert forall|i: int| 0 <= i < connects@.len() implies (#[trigger] connects@[i])
                < next by {
                if i < k {
                    assert(before.connects[i] < before.next);
                }
            }
        }
        let had_error = self.had_error;
        *self = TryConnectAll { parallel_n, total, next, connects, had_error };
        r
    }

    /// Notes that the server at a place among those that are being tried failed,
    /// and says which one it is.
    pub fn fail(&mut self, at: usize) -> (r: usize)
        requires
            at < old(self)@.connects.len(),
        ensures
            r == old(self)@.connects[at as int],
            final(self)@ == (TryModel {
                connects: old(self)@.connects.remove(at as int),
                had_error: true,
                ..old(self)@
            }),
            final(self)@ == failed(old(self)@, at as int),
            final(self)@.is_valid(),
    {
        proof {
            use_type_invariant(&*self);
        }
        let ghost before = self@;
        let mut connects: Vec<usize> = self.connects.clone();
        assert(connects@ =~= before.connects);
        let r = connects.remove(at);
        proof {
            let after = connects@;
            assert forall|i: int, j: int|
                0 <= i < after.len() && 0 <= j < after.len() && i != j implies after[i]
                != after[j] by {
                let i0 = if i < at { i } else { i + 1 };
                let j0 = if j < at { j } else { j + 1 };
                assert(before.connects[i0] != before.connects[j0]);
            }
            assert forall|i: int| 0 <= i < after.len() implies (#[trigger] after[i])
                < before.next by {
                let i0 = if i < at { i } else { i + 1 };
                assert(before.connects[i0] < before.next);
            }
        }
        let parallel_n = self.parallel_n;
        let total = self.total;
        let next = self.next;
        *self = TryConnectAll { parallel_n, total, next, connects, had_error: true };
        r
    }

    /// The servers that are being tried.
    pub fn connecting(&self) -> (r: &Vec<usize>)
        ensures
            r@ == self@.connects,
    {
        &self.connects
    }

    /// Decides what to do next.
    pub fn decide(&self) -> (r: Decision)
        ensures
            r == decision(self@),
            self@.is_valid(),
    {
        proof {
            use_type_invariant(self);
        }
        if self.connects.len() == 0 && self.next == self.total {
            Decision::GiveUp { had_error: self.had_error }
        } else if self.connects.len() >= self.parallel_n || self.next == self.total {
            Decision::Wait
        } else {
            Decision::StartMore
        }
    }
}

// ---- laws ----

/// One gives up only when each server was tried and has failed.
pub proof fn lemma_gives_up_at_last(t: TryModel)
    requires
        t.is_valid(),
        decision(t) is GiveUp,
    ensures
        t.next == t.total,
        t.connects.len() == 0,
        t.total > 0 ==> decision(t) == (Decision::GiveUp { had_error: true }),
{
}

/// As long as one waits, a server is being tried.
pub proof fn lemma_waits_for_someone(t: TryModel)
    requires
        t.is_valid(),
        decision(t) == Decision::Wait,
    ensures
        t.connects.len() > 0,
{
}

/// After starting there is nothing more to start, so one waits or gives up.
pub proof fn lemma_started_enough(t: TryModel)
    requires
        t.is_valid(),
    ensures
        ({
            let after = TryModel {
                next: t.next + started(t),
                connects: t.connects + numbers(t.next, started(t)),
                ..t
            };
            decision(after) != Decision::StartMore
        }),
{
}

/// Servers are tried in the order of their numbers, as many as there is room for
/// and no more than there are.
pub proof fn lemma_servers_are_started_in_order(t: TryModel)
    requires
        t.is_valid(),
        t.total <= usize::MAX,
    ensures
        t.connects.len() + started(t) <= t.parallel_n,
        t.next + started(t) <= t.total,
        t.connects.len() + started(t) == t.parallel_n || t.next + started(t) == t.total,
        numbers(t.next, started(t)).len() == started(t),
        forall|i: int|
            0 <= i < started(t) ==> (#[trigger] numbers(t.next, started(t))[i]) == t.next + i,
{
}

/// A number that is brought between two others is as near to itself as it can be.
pub proof fn lemma_clamped(n: nat, low: nat, high: nat)
    requires
        low <= high,
    ensures
        low <= clamped(n, low, high) <= high,
        low <= n <= high ==> clamped(n, low, high) == n,
        n < low ==> clamped(n, low, high) == low,
        n > high ==> clamped(n, low, high) == high,
{
}

/// One gives up exactly where no server is left and none is being tried, and the
/// error that is told is one that came.
pub proof fn lemma_when_to_give_up(t: TryModel)
    requires
        t.is_valid(),
    ensures
        decision(t) is GiveUp <==> t.next == t.total && t.connects.len() == 0,
        decision(t) == Decision::Wait <==> t.connects.len() > 0 && (t.next == t.total
            || t.connects.len() == t.parallel_n),
        decision(t) matches Decision::GiveUp { had_error } ==> had_error == t.had_error,
{
}

/// Where answers are waited for, as many servers are tried at the same time as
/// the user allows and as there are, one at least; otherwise it is one.
pub proof fn lemma_how_many_at_first(total: nat, parallel_n: nat, wait_response: bool)
    requires
        wait_response ==> total >= 1,
    ensures
        ({
            let t = first_try(total, parallel_n, wait_response);
            &&& !wait_response ==> t.parallel_n == 1
            &&& wait_response && 1 <= parallel_n <= total ==> t.parallel_n == parallel_n
            &&& wait_response && parallel_n > total ==> t.parallel_n == total
            &&& wait_response && parallel_n == 0 ==> t.parallel_n == 1
            &&& t.total == total && t.next == 0 && t.connects.len() == 0 && !t.had_error
        }),
{
}

/// Those that are being tried go on when others are started, and the new ones
/// are those whose turn it is. None is tried twice.
pub proof fn lemma_starting_more(t: TryModel)
    requires
        t.is_valid(),
        t.total <= usize::MAX,
    ensures
        ({
            let u = begun(t);
            &&& u.connects.take(t.connects.len() as int) == t.connects
            &&& forall|i: int|
                t.connects.len() <= i < u.connects.len() ==> (#[trigger] u.connects[i]) == t.next + i
                    - t.connects.len()
            &&& u.next == t.next + u.connects.len() - t.connects.len()
            &&& u.connects.len() == u.parallel_n || u.next == u.total
            &&& u.parallel_n == t.parallel_n && u.total == t.total && u.had_error == t.had_error
            &&& u.connects.no_duplicates()
        }),
{
    let u = begun(t);
    assert(u.connects.take(t.connects.len() as int) =~= t.connects);
    assert forall|i: int, j: int|
        0 <= i < u.connects.len() && 0 <= j < u.connects.len() && i != j implies u.connects[i]
        != u.connects[j] by {
        if i < t.connects.len() {
            assert(t.connects[i] < t.next);
        }
        if j < t.connects.len() {
            assert(t.connects[j] < t.next);
        }
    }
}

/// A server that failed is no longer tried, and the others go on in their order.
pub proof fn lemma_failing(t: TryModel, at: int, i: int)
    requires
        0 <= at < t.connects.len(),
        0 <= i < t.connects.len() - 1,
    ensures
        ({
            let u = failed(t, at);
            &&& u.connects.len() == t.connects.len() - 1
            &&& i < at ==> u.connects[i] == t.connects[i]
            &&& i >= at ==> u.connects[i] == t.connects[i + 1]
            &&& u.had_error
            &&& u.next == t.next && u.total == t.total && u.parallel_n == t.parallel_n
        }),
{
}

} // verus!
