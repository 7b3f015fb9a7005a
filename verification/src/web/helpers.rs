//! Small decisions and texts of the status pages.

use crate::text::{has_prefix, push_dec};
use crate::time::Duration;
use vstd::prelude::*;

verus! {

/// What a pattern of the `regex` crate says of a text: nothing where it is no
/// pattern, else whether it is found.
pub uninterp spec fn pattern_found(pattern: Seq<char>, text: Seq<char>) -> Option<bool>;

/// The pattern of the names by which programs that show plain text call
/// themselves.
pub open spec fn plain_agents() -> Seq<char> {
    r"(^(curl|Lynx)/|PowerShell/[\d\.]+$)"@
}

/// Whether a text is a version: digits and dots, one of them at least.
pub open spec fn is_version(s: Seq<char>) -> bool {
    s.len() > 0 && forall|i: int| 0 <= i < s.len() ==> ('0' <= #[trigger] s[i] <= '9' || s[i] == '.')
}

/// Whether a program shows plain text: it is `curl` or `Lynx`, or its name ends
/// with `PowerShell` and a version.
pub open spec fn shows_plain_text(agent: Seq<char>) -> bool {
    ||| "curl/"@.is_prefix_of(agent)
    ||| "Lynx/"@.is_prefix_of(agent)
    ||| exists|i: int|
        0 <= i <= agent.len() && "PowerShell/"@.is_prefix_of(#[trigger] agent.skip(i))
            && is_version(agent.skip(i).skip(11))
}

/// `regex::Regex::new` and `Regex::is_match`: whether a pattern is found in a
/// text, which the two alone decide. The pattern of the programs that show plain
/// text is a valid one, and is found in an ASCII text where it starts or ends as
/// said above. What other patterns mean, and which digits beyond ASCII this one
/// takes, is not stated.
#[verifier::external_body]
pub(crate) fn is_match(pattern: &str, text: &str) -> (r: Option<bool>)
    ensures
        r == pattern_found(pattern@, text@),
        pattern@ == plain_agents() ==> r is Some,
        pattern@ == plain_agents() && vstd::utf8::is_ascii_chars(text@) ==> r == Some(
            shows_plain_text(text@),
        ),
{
    match regex::Regex::new(pattern) {
        Ok(re) => Some(re.is_match(text)),
        Err(_) => None,
    }
}

/// The headers of a request that say what the client can show.
#[derive(Debug)]
pub struct RequestHeaders {
    pub accept: Option<String>,
    pub user_agent: Option<String>,
}

/// The view of a text that may be missing.
pub open spec fn text_view(s: Option<String>) -> Option<Seq<char>> {
    match s {
        Some(s) => Some(s@),
        None => None,
    }
}

/// Whether a client that says so wants HTML or plain text.
pub open spec fn wanted(accept: Option<Seq<char>>) -> Option<bool> {
    match accept {
        Some(accept) => if "text/html"@.is_prefix_of(accept) {
            Some(true)
        } else if "text/plain"@.is_prefix_of(accept) {
            Some(false)
        } else {
            None
        },
        None => None,
    }
}

/// Whether a client takes HTML: it says so, or else its name is not one of a
/// program that shows plain text.
pub open spec fn takes_html(accept: Option<Seq<char>>, agent: Option<Seq<char>>) -> bool {
    match wanted(accept) {
        Some(html) => html,
        None => match agent {
            Some(agent) => pattern_found(plain_agents(), agent) != Some(true),
            None => true,
        },
    }
}

/// What a request says of its client.
pub trait RequestExt {
    /// What the client says it takes.
    spec fn accept_spec(&self) -> Option<Seq<char>>;

    /// How the client calls itself.
    spec fn agent_spec(&self) -> Option<Seq<char>>;

    /// Whether the client takes HTML.
    fn accept_html(&self) -> (r: bool)
        ensures
            r == takes_html(self.accept_spec(), self.agent_spec()),
    ;
}

impl RequestExt for RequestHeaders {
    open spec fn accept_spec(&self) -> Option<Seq<char>> {
        text_view(self.accept)
    }

    open spec fn agent_spec(&self) -> Option<Seq<char>> {
        text_view(self.user_agent)
    }

    fn accept_html(&self) -> (r: bool)
        ensures
            wanted(text_view(self.accept)) matches Some(html) ==> r == html,
            self.user_agent is None && wanted(text_view(self.accept)) is None ==> r,
            self.user_agent matches Some(agent) ==> (wanted(text_view(self.accept)) is None
                && vstd::utf8::is_ascii_chars(agent@) ==> r == !shows_plain_text(agent@)),
    {
        if let Some(accept) = &self.accept {
            if has_prefix(accept.as_str(), "text/html") {
                return true;
            } else if has_prefix(accept.as_str(), "text/plain") {
                return false;
            }
        }
        match &self.user_agent {
            Some(agent) => match is_match(
                r"(^(curl|Lynx)/|PowerShell/[\d\.]+$)",
                agent.as_str(),
            ) {
                Some(found) => !found,
                None => true,
            },
            None => true,
        }
    }
}

/// The first `k` of some amounts that are not zero, each before its unit.
pub open spec fn spelled_units(units: Seq<(u64, char)>, k: nat) -> Seq<char>
    decreases units.len(),
{
    if units.len() == 0 || k == 0 {
        Seq::empty()
    } else if units[0].0 == 0 {
        spelled_units(units.skip(1), k)
    } else {
        crate::text::dec(units[0].0 as nat).push(units[0].1) + spelled_units(
            units.skip(1),
            (k - 1) as nat,
        )
    }
}

/// The days, hours, minutes and seconds of a span of time.
pub open spec fn units_of(secs: u64) -> Seq<(u64, char)> {
    seq![
        (secs / 86400, 'd'),
        ((secs % 86400) / 3600, 'h'),
        ((secs % 3600) / 60, 'm'),
        (secs % 60, 's'),
    ]
}

/// A span of time as text.
pub trait DurationExt {
    /// The whole seconds of the span.
    spec fn secs_spec(&self) -> u64;

    /// The whole milliseconds of the span.
    spec fn millis_spec(&self) -> nat;

    /// The two largest units of the span.
    fn format(&self) -> (s: String)
        ensures
            s@ == spelled_units(units_of(self.secs_spec()), 2),
    ;

    /// The span in milliseconds.
    fn format_millis(&self) -> (s: String)
        ensures
            s@ == crate::text::dec(self.millis_spec()) + " ms"@,
    ;
}

/// Appends the decimal notation of a large number.
fn push_large(buf: &mut String, n: u128)
    ensures
        final(buf)@ == old(buf)@ + crate::text::dec(n as nat),
    decreases n,
{
    if n <= u64::MAX as u128 {
        push_dec(buf, n as u64);
    } else {
        push_large(buf, n / 10);
        buf.push(crate::text::digit((n % 10) as u64));
        assert(buf@ =~= old(buf)@ + crate::text::dec(n as nat));
    }
}

impl DurationExt for Duration {
    open spec fn secs_spec(&self) -> u64 {
        self.secs
    }

    open spec fn millis_spec(&self) -> nat {
        self.millis() as nat
    }

    fn format(&self) -> (s: String) {
        let secs = self.secs;
        let units: Vec<(u64, char)> = vec![
            (secs / 86400, 'd'),
            ((secs % 86400) / 3600, 'h'),
            ((secs % 3600) / 60, 'm'),
            (secs % 60, 's'),
        ];
        assert(units@ =~= units_of(secs));
        let mut s = String::new();
        let mut taken: usize = 0;
        let mut i: usize = 0;
        assert(units@.skip(0) =~= units@);
        assert(s@ + spelled_units(units@, 2) =~= spelled_units(units@, 2));
        while i < units.len() && taken < 2
            invariant
                i <= units@.len(),
                taken <= 2,
                units@ == units_of(secs),
                s@ + spelled_units(units@.skip(i as int), (2 - taken) as nat) == spelled_units(
                    units_of(secs),
                    2,
                ),
            decreases units@.len() - i,
        {
            let (amount, unit) = units[i];
            let ghost before = s@;
            let ghost left = units@.skip(i as int);
            proof {
                assert(left.skip(1) =~= units@.skip(i + 1));
                assert(left[0] == units@[i as int]);
            }
            if amount > 0 {
                push_dec(&mut s, amount);
                s.push(unit);
                taken = taken + 1;
                proof {
                    let more = crate::text::dec(amount as nat).push(unit);
                    let rest = spelled_units(units@.skip(i + 1), (2 - taken) as nat);
                    assert(s@ =~= before + more);
                    assert(before + (more + rest) =~= (before + more) + rest);
                }
            }
            i = i + 1;
        }
        proof {
            let rest = spelled_units(units@.skip(i as int), (2 - taken) as nat);
            assert(rest =~= Seq::<char>::empty());
            assert(s@ + rest =~= s@);
        }
        s
    }

    fn format_millis(&self) -> (s: String) {
        let mut s = String::new();
        push_large(&mut s, self.as_millis());
        s.append(" ms");
        assert(s@ =~= crate::text::dec(self.millis_spec()) + " ms"@);
        s
    }
}

/// A number with two digits or more.
pub open spec fn two_digits(n: nat) -> Seq<char> {
    if n < 10 {
        seq!['0'] + crate::text::dec(n)
    } else {
        crate::text::dec(n)
    }
}

/// Appends a number with two digits or more.
pub fn push_two_digits(buf: &mut String, n: u8)
    ensures
        final(buf)@ == old(buf)@ + two_digits(n as nat),
{
    if n < 10 {
        buf.push('0');
    }
    push_dec(buf, n as u64);
    assert(buf@ =~= old(buf)@ + two_digits(n as nat));
}

// ---- laws ----

/// The days, hours, minutes and seconds of a span add up to it, and no unit
/// reaches the next larger one.
pub proof fn lemma_units_add_up(secs: u64)
    ensures
        ({
            let u = units_of(secs);
            &&& u.len() == 4
            &&& u[0].1 == 'd' && u[1].1 == 'h' && u[2].1 == 'm' && u[3].1 == 's'
            &&& u[0].0 * 86400 + u[1].0 * 3600 + u[2].0 * 60 + u[3].0 == secs
            &&& u[1].0 < 24 && u[2].0 < 60 && u[3].0 < 60
        }),
{
}

/// A unit of which there is none is not told, and no more units are told than
/// asked for.
pub proof fn lemma_units_are_told_in_order(
    n: u64,
    unit: char,
    units: Seq<(u64, char)>,
    k: nat,
)
    ensures
        spelled_units(seq![(0u64, unit)] + units, k) == spelled_units(units, k),
        n > 0 ==> spelled_units(seq![(n, unit)] + units, k + 1) == crate::text::dec(n as nat)
            + seq![unit] + spelled_units(units, k),
        spelled_units(units, 0) == Seq::<char>::empty(),
{
    let a = seq![(0u64, unit)] + units;
    let b = seq![(n, unit)] + units;
    assert(a.skip(1) =~= units);
    assert(b.skip(1) =~= units);
    assert(a[0].0 == 0 && b[0] == (n, unit));
    if n > 0 {
        assert(spelled_units(b, k + 1) =~= crate::text::dec(n as nat) + seq![unit]
            + spelled_units(units, k));
    }
}

/// What a client says that it takes decides, whatever it calls itself; only where
/// it says neither of the two its name decides.
pub proof fn lemma_accepted_type_decides(more: Seq<char>, agent: Option<Seq<char>>)
    ensures
        takes_html(Some("text/html"@ + more), agent),
        !takes_html(Some("text/plain"@ + more), agent),
        takes_html(None, None),
        agent matches Some(name) ==> (takes_html(None, agent) <==> pattern_found(
            plain_agents(),
            name,
        ) != Some(true)),
{
    reveal_strlit("text/html");
    reveal_strlit("text/plain");
    let html = "text/html"@ + more;
    let plain = "text/plain"@ + more;
    assert("text/html"@ =~= html.subrange(0, 9));
    assert("text/plain"@ =~= plain.subrange(0, 10));
    assert(plain[5] == 'p' && "text/html"@[5] == 'h');
    assert(!"text/html"@.is_prefix_of(plain)) by {
        assert(plain.subrange(0, 9)[5] == 'p');
    }
}

/// A number below a hundred has two digits.
pub proof fn lemma_two_digits(n: nat)
    requires
        n < 100,
    ensures
        two_digits(n) == seq![crate::text::digit_char(n / 10), crate::text::digit_char(n % 10)],
{
    reveal_with_fuel(crate::text::dec, 2);
    assert(two_digits(n) =~= seq![
        crate::text::digit_char(n / 10),
        crate::text::digit_char(n % 10),
    ]);
}

} // verus!
