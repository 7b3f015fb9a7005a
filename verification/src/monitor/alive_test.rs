//! Testing whether a server is alive.

use crate::text::{push_dec, read_be16};
use vstd::prelude::*;

verus! {

/// `rand::random` gives any byte.
#[verifier::external_body]
pub(crate) fn random_byte() -> u8 {
    rand::random()
}

/// A query for the address of the root of the domain names, with its length
/// before it.
pub open spec fn query_bytes(a: u8, b: u8) -> Seq<u8> {
    seq![0u8, 17, a, b, 1, 32, 0, 1, 0, 0, 0, 0, 0, 0, 0, 0, 1, 0, 1]
}

/// The number of a query or an answer.
pub open spec fn transaction(data: Seq<u8>) -> int {
    crate::text::be16(data, 2)
}

/// A query with the given number.
pub fn query(a: u8, b: u8) -> (r: Vec<u8>)
    ensures
        r@ == query_bytes(a, b),
        transaction(r@) == a * 256 + b,
{
    let r: Vec<u8> = vec![0, 17, a, b, 1, 32, 0, 1, 0, 0, 0, 0, 0, 0, 0, 0, 1, 0, 1];
    assert(r@ =~= query_bytes(a, b));
    r
}

/// A query with any number.
pub fn random_query() -> (r: Vec<u8>)
    ensures
        exists|a: u8, b: u8| r@ == query_bytes(a, b),
{
    let a = random_byte();
    let b = random_byte();
    query(a, b)
}

/// Whether an answer is the one to a query.
pub fn is_answer(query: &[u8], answer: &[u8]) -> (r: bool)
    requires
        query@.len() >= 4,
        answer@.len() >= 4,
    ensures
        r == (transaction(query@) == transaction(answer@)),
{
    read_be16(query, 2) == read_be16(answer, 2)
}

/// How far the tests of all servers are.
#[derive(Debug, Clone, Copy, PartialEq, Eq, Structural)]
pub struct TestProgress {
    pub total: usize,
    pub pass: usize,
    pub fail: usize,
}

/// How the progress is told.
pub open spec fn progress_text(p: TestProgress) -> Seq<char> {
    let done = (p.pass + p.fail) as nat;
    if done < p.total {
        "probing ("@ + crate::text::dec(done) + "/"@ + crate::text::dec(p.total as nat) + " done)"@
    } else {
        "serving ("@ + crate::text::dec(p.pass as nat) + "/"@ + crate::text::dec(p.total as nat)
            + " upstream "@ + (if p.pass > 1 {
            "proxies"@
        } else {
            "proxy"@
        }) + " up)"@
    }
}

impl TestProgress {
    /// No server was tested yet.
    pub fn new(total: usize) -> (r: TestProgress)
        ensures
            r == (TestProgress { total, pass: 0, fail: 0 }),
    {
        TestProgress { total, pass: 0, fail: 0 }
    }

    /// Counts a server that was tested.
    pub fn increase(&mut self, passed: bool)
        requires
            old(self).pass + old(self).fail < usize::MAX,
        ensures
            *final(self) == if passed {
                TestProgress { pass: (old(self).pass + 1) as usize, ..*old(self) }
            } else {
                TestProgress { fail: (old(self).fail + 1) as usize, ..*old(self) }
            },
    {
        if passed {
            self.pass = self.pass + 1;
        } else {
            self.fail = self.fail + 1;
        }
    }

    /// The progress as text.
    pub fn to_string(&self) -> (s: String)
        requires
            self.pass + self.fail <= usize::MAX,
        ensures
            s@ == progress_text(*self),
    {
        let done = self.pass + self.fail;
        if done < self.total {
            let mut s = "probing (".to_owned();
            push_dec(&mut s, done as u64);
            s.append("/");
            push_dec(&mut s, self.total as u64);
            s.append(" done)");
            s
        } else {
            let mut s = "serving (".to_owned();
            push_dec(&mut s, self.pass as u64);
            s.append("/");
            push_dec(&mut s, self.total as u64);
            s.append(" upstream ");
            s.append(
                if self.pass > 1 {
                    "proxies"
                } else {
                    "proxy"
                },
            );
            s.append(" up)");
            s
        }
    }
}

/// As long as not all servers were tested it is told how many were, and after
/// that how many of them passed.
pub proof fn lemma_what_is_told(p: TestProgress)
    ensures
        p.pass + p.fail < p.total ==> progress_text(p) == "probing ("@ + crate::text::dec(
            (p.pass + p.fail) as nat,
        ) + "/"@ + crate::text::dec(p.total as nat) + " done)"@,
        p.pass + p.fail >= p.total ==> "serving ("@.is_prefix_of(progress_text(p)),
{
    if p.pass + p.fail >= p.total {
        let s = progress_text(p);
        assert("serving ("@ =~= s.subrange(0, "serving ("@.len() as int));
    }
}

} // verus!
