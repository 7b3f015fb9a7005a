//! The language of policy rules.

use super::action::{Action, ActionType};
use super::capabilities::{CapRequirements, CapSet};
use super::prefix::network_of;
use crate::net::{read_ip, IpAddr};
use crate::number::read_number;
use crate::text::{front, rest};
use flexstr::{SharedStr, ToCase};
use vstd::prelude::*;

verus! {

/// Which connections a rule is about.
#[derive(Debug)]
pub enum Filter {
    /// All of them.
    Default,
    /// Those that came in at a port.
    ListenPort(u16),
    /// Those that go to a domain.
    Sni(String),
    /// Those that go to a network: its address and the length of its prefix.
    DstIp((IpAddr, u8)),
}

/// A rule: what to do with which connections.
#[derive(Debug)]
pub struct Rule {
    pub filter: Filter,
    pub action: Action,
}

/// The text does not have the form that was asked for.
#[derive(Debug, Clone, Copy, PartialEq, Eq, Structural)]
pub struct ParseError;

/// The model of a filter.
pub enum FilterModel {
    Default,
    ListenPort(u16),
    Sni(Seq<char>),
    DstIp(IpAddr, u8),
}

/// The model of a rule.
pub struct RuleModel {
    pub filter: FilterModel,
    pub action: super::action::ActionModel,
}

impl View for Filter {
    type V = FilterModel;

    open spec fn view(&self) -> FilterModel {
        match self {
            Filter::Default => FilterModel::Default,
            Filter::ListenPort(port) => FilterModel::ListenPort(*port),
            Filter::Sni(name) => FilterModel::Sni(name@),
            Filter::DstIp((ip, len)) => FilterModel::DstIp(*ip, *len),
        }
    }
}

impl View for Rule {
    type V = RuleModel;

    open spec fn view(&self) -> RuleModel {
        RuleModel { filter: self.filter@, action: self.action@ }
    }
}

impl Filter {
    /// Whether both are about the same connections.
    pub fn same(&self, other: &Filter) -> (r: bool)
        ensures
            r == (self@ == other@),
    {
        match (self, other) {
            (Filter::Default, Filter::Default) => true,
            (Filter::ListenPort(a), Filter::ListenPort(b)) => *a == *b,
            (Filter::Sni(a), Filter::Sni(b)) => *a == *b,
            (Filter::DstIp(a), Filter::DstIp(b)) => a.0 == b.0 && a.1 == b.1,
            _ => false,
        }
    }
}

impl Rule {
    /// Whether both say the same.
    pub fn same(&self, other: &Rule) -> (r: bool)
        ensures
            r == (self@ == other@),
    {
        self.filter.same(&other.filter) && self.action.same(&other.action)
    }
}

/// The first bits of the key of an address, and how many bits it has.
pub open spec fn address_key(ip: IpAddr) -> (u128, nat) {
    match ip {
        IpAddr::V4(v4) => ((v4.bits * 0x1_0000_0000_0000_0000_0000_0000) as u128, 32),
        IpAddr::V6(v6) => (v6.bits, 128),
    }
}

/// Whether an address with a prefix length is a network: the length is one that
/// the address can have, and no bit behind the prefix is set.
pub open spec fn is_ip_network(ip: IpAddr, len: nat) -> bool {
    len <= address_key(ip).1 && super::prefix::is_network(address_key(ip).0, len)
}

/// Whether a filter can be meant: what it says of a network holds of one.
pub open spec fn is_filter(f: FilterModel) -> bool {
    match f {
        FilterModel::DstIp(ip, len) => is_ip_network(ip, len as nat),
        _ => true,
    }
}

// ---- characters ----

/// Whether a character beyond ASCII is a letter or a digit.
pub uninterp spec fn alphanumeric(c: char) -> bool;

/// Whether a character is a letter or a digit.
pub open spec fn is_letter_or_digit(c: char) -> bool {
    if (c as u32) < 128 {
        ('0' <= c <= '9') || ('a' <= c <= 'z') || ('A' <= c <= 'Z')
    } else {
        alphanumeric(c)
    }
}

/// `char::is_alphanumeric` accepts the letters and digits of ASCII and those
/// that Unicode calls alphabetic or numeric; of the latter nothing is stated but
/// that the character decides.
pub assume_specification[ char::is_alphanumeric ](c: char) -> (r: bool)
    ensures
        r == if (c as u32) < 128 {
            ('0' <= c <= '9') || ('a' <= c <= 'z') || ('A' <= c <= 'Z')
        } else {
            alphanumeric(c)
        },
;

/// The lower case of a character beyond ASCII, which may be several characters.
pub uninterp spec fn lowercase(c: char) -> Seq<char>;

/// A text in lower case: each character by itself.
pub open spec fn lowered(s: Seq<char>) -> Seq<char> {
    if vstd::utf8::is_ascii_chars(s) {
        s.map_values(|c: char| crate::text::ascii_lower(c))
    } else {
        s.map_values(
            |c: char|
                if (c as u32) < 128 {
                    seq![crate::text::ascii_lower(c)]
                } else {
                    lowercase(c)
                },
        ).flatten()
    }
}

/// `ToCase::to_lower` of the crate `flexstr` puts the Unicode lower case in
/// place of each character; in ASCII that is one letter for another. What it is
/// of a character beyond ASCII is not stated, but that the character alone
/// decides.
#[verifier::external_body]
fn to_lower(s: &str) -> (r: String)
    ensures
        r@ == if vstd::utf8::is_ascii_chars(s@) {
            s@.map_values(|c: char| crate::text::ascii_lower(c))
        } else {
            s@.map_values(
                |c: char|
                    if (c as u32) < 128 {
                        seq![crate::text::ascii_lower(c)]
                    } else {
                        lowercase(c)
                    },
            ).flatten()
        },
{
    let lower: SharedStr = s.to_lower();
    lower.as_str().into()
}

/// Whether a character may stand in a name.
pub open spec fn is_id_char(c: char) -> bool {
    is_letter_or_digit(c) || c == '-' || c == '_'
}

/// Whether a character is a space or a tabulator.
pub open spec fn is_blank(c: char) -> bool {
    c == ' ' || c == '\t'
}

/// How many blanks a text starts with.
pub open spec fn blank_run(s: Seq<char>) -> nat
    decreases s.len(),
{
    if s.len() == 0 || !is_blank(s[0]) {
        0
    } else {
        1 + blank_run(s.skip(1))
    }
}

/// How many characters of a name a text starts with.
pub open spec fn id_run(s: Seq<char>) -> nat
    decreases s.len(),
{
    if s.len() == 0 || !is_id_char(s[0]) {
        0
    } else {
        1 + id_run(s.skip(1))
    }
}

/// How many characters stand before the end of the line.
pub open spec fn line_run(s: Seq<char>) -> nat
    decreases s.len(),
{
    if s.len() == 0 || s[0] == '\r' || s[0] == '\n' {
        0
    } else {
        1 + line_run(s.skip(1))
    }
}

/// How many exclamation marks a text starts with.
pub open spec fn mark_run(s: Seq<char>) -> nat
    decreases s.len(),
{
    if s.len() == 0 || s[0] != '!' {
        0
    } else {
        1 + mark_run(s.skip(1))
    }
}

/// Whether a text starts with a word, in upper or lower case.
pub open spec fn starts_with_word(s: Seq<char>, word: Seq<char>) -> bool {
    &&& word.len() <= s.len()
    &&& forall|i: int|
        0 <= i < word.len() ==> crate::text::ascii_lower(#[trigger] s[i]) == crate::text::ascii_lower(word[i])
}

/// The characters that a word and at least one blank behind it take.
pub open spec fn word_and_blanks(s: Seq<char>, word: Seq<char>) -> Option<nat> {
    if starts_with_word(s, word) && blank_run(s.skip(word.len() as int)) > 0 {
        Some(word.len() + blank_run(s.skip(word.len() as int)))
    } else {
        None
    }
}

// ---- filters ----

/// The port that a text starts with.
pub open spec fn port_at(s: Seq<char>) -> Option<(nat, u16)> {
    match crate::number::number_at(s, 10, 0xffff) {
        Some((n, v)) => if v == 0 {
            None
        } else {
            Some((n, v as u16))
        },
        None => None,
    }
}

/// How many characters the labels take that a text starts with, each with the
/// dot behind it.
pub open spec fn label_run(s: Seq<char>) -> nat
    decreases s.len(),
{
    let n = id_run(s);
    if n == 0 || n > s.len() {
        0
    } else {
        let m = if n < s.len() && s[n as int] == '.' {
            n + 1
        } else {
            n
        };
        m + label_run(s.skip(m as int))
    }
}

/// A name without one dot at its end.
pub open spec fn without_last_dot(s: Seq<char>) -> Seq<char> {
    if s.len() > 0 && s.last() == '.' {
        s.drop_last()
    } else {
        s
    }
}

/// The domain name that a text starts with, in lower case; a dot alone is the
/// root.
pub open spec fn domain_at(s: Seq<char>) -> Option<(nat, Seq<char>)> {
    let n = label_run(s);
    if n > 0 {
        Some((n, lowered(without_last_dot(s.take(n as int)))))
    } else if s.len() > 0 && s[0] == '.' {
        Some((1, "."@))
    } else {
        None
    }
}

/// The network that a text starts with: an address, and the length of its
/// prefix where it is not the whole address.
pub open spec fn network_at(s: Seq<char>) -> Option<(nat, (IpAddr, u8))> {
    match crate::net::ip_at(s) {
        None => None,
        Some((n, ip)) => {
            let whole = address_key(ip).1;
            if n < s.len() && s[n as int] == '/' {
                match crate::number::number_at(s.skip((n + 1) as int), 10, whole) {
                    Some((m, len)) => if is_ip_network(ip, len) {
                        Some((n + 1 + m, (ip, len as u8)))
                    } else {
                        None
                    },
                    None => None,
                }
            } else {
                Some((n, (ip, whole as u8)))
            }
        },
    }
}

/// The filter on the destination's domain that a text starts with.
pub open spec fn dst_domain_at(s: Seq<char>) -> Option<(nat, FilterModel)> {
    match word_and_blanks(s, "dst domain"@) {
        None => None,
        Some(n) => match domain_at(s.skip(n as int)) {
            Some((m, name)) => Some((n + m, FilterModel::Sni(name))),
            None => None,
        },
    }
}

/// The filter on the destination's address that a text starts with.
pub open spec fn dst_ip_at(s: Seq<char>) -> Option<(nat, FilterModel)> {
    match word_and_blanks(s, "dst ip"@) {
        None => None,
        Some(n) => match network_at(s.skip(n as int)) {
            Some((m, (ip, len))) => Some((n + m, FilterModel::DstIp(ip, len))),
            None => None,
        },
    }
}

/// The filter on the listening port that a text starts with.
pub open spec fn listen_port_at(s: Seq<char>) -> Option<(nat, FilterModel)> {
    match word_and_blanks(s, "listen port"@) {
        None => None,
        Some(n) => match port_at(s.skip(n as int)) {
            Some((m, port)) => Some((n + m, FilterModel::ListenPort(port))),
            None => None,
        },
    }
}

/// The filter that accepts everything.
pub open spec fn default_at(s: Seq<char>) -> Option<(nat, FilterModel)> {
    if starts_with_word(s, "default"@) {
        Some(("default"@.len(), FilterModel::Default))
    } else {
        None
    }
}

/// The filter that a text starts with.
pub open spec fn filter_at(s: Seq<char>) -> Option<(nat, FilterModel)> {
    if dst_domain_at(s) is Some {
        dst_domain_at(s)
    } else if dst_ip_at(s) is Some {
        dst_ip_at(s)
    } else if listen_port_at(s) is Some {
        listen_port_at(s)
    } else {
        default_at(s)
    }
}

// ---- actions ----

/// What may stand between two names: a comma with or without blanks around it,
/// or blanks (`comma`); or the word `or` between blanks.
pub open spec fn separator_at(s: Seq<char>, comma: bool) -> Option<nat> {
    let n = blank_run(s);
    if comma {
        if n < s.len() && s[n as int] == ',' {
            Some(n + 1 + blank_run(s.skip((n + 1) as int)))
        } else if n > 0 {
            Some(n)
        } else {
            None
        }
    } else if n == 0 {
        None
    } else {
        match word_and_blanks(s.skip(n as int), "or"@) {
            Some(m) => Some(n + m),
            None => None,
        }
    }
}

/// The further names of a list, each with the separator before it, that a text
/// starts with.
pub open spec fn further_names(s: Seq<char>, comma: bool) -> (nat, Seq<Seq<char>>)
    decreases s.len(),
{
    match separator_at(s, comma) {
        None => (0, Seq::empty()),
        Some(n) => {
            let m = id_run(s.skip(n as int));
            if n == 0 || n > s.len() || m == 0 || n + m > s.len() {
                (0, Seq::empty())
            } else {
                let (k, names) = further_names(s.skip((n + m) as int), comma);
                (n + m + k, seq![s.subrange(n as int, (n + m) as int)] + names)
            }
        },
    }
}

/// The list of names that a text starts with; none where it starts with no name.
pub open spec fn names_at(s: Seq<char>, comma: bool) -> (nat, Seq<Seq<char>>) {
    let n = id_run(s);
    if n == 0 {
        (0, Seq::empty())
    } else {
        let (k, names) = further_names(s.skip(n as int), comma);
        (n + k, seq![s.take(n as int)] + names)
    }
}

/// The priority that a text starts with.
pub open spec fn priority_at(s: Seq<char>) -> Option<(nat, u8)> {
    if mark_run(s) <= 5 {
        Some((mark_run(s), mark_run(s) as u8))
    } else {
        None
    }
}

/// The requirement that a text starts with.
pub open spec fn require_at(s: Seq<char>) -> Option<(nat, super::action::ActionModel)> {
    let word = "require"@;
    if !starts_with_word(s, word) {
        None
    } else {
        match priority_at(s.skip(word.len() as int)) {
            None => None,
            Some((n, priority)) => {
                let a = word.len() + n;
                let b = blank_run(s.skip(a as int));
                let (k, names) = names_at(s.skip((a + b) as int), false);
                if b == 0 || names.len() == 0 {
                    None
                } else {
                    Some(
                        (
                            a + b + k,
                            super::action::ActionModel {
                                priority,
                                action: super::action::ActionKind::Require(
                                    set![crate::order::sorted(names)],
                                ),
                            },
                        ),
                    )
                }
            },
        }
    }
}

/// The action without requirements that a text starts with, where `word` is how
/// it is called.
pub open spec fn plain_action_at(
    s: Seq<char>,
    word: Seq<char>,
    action: super::action::ActionKind,
) -> Option<(nat, super::action::ActionModel)> {
    if !starts_with_word(s, word) {
        None
    } else {
        match priority_at(s.skip(word.len() as int)) {
            None => None,
            Some((n, priority)) => Some(
                (word.len() + n, super::action::ActionModel { priority, action }),
            ),
        }
    }
}

/// The action that a text starts with.
pub open spec fn action_at(s: Seq<char>) -> Option<(nat, super::action::ActionModel)> {
    let direct = plain_action_at(s, "direct"@, super::action::ActionKind::Direct);
    let reject = plain_action_at(s, "reject"@, super::action::ActionKind::Reject);
    if require_at(s) is Some {
        require_at(s)
    } else if direct is Some {
        direct
    } else {
        reject
    }
}

// ---- lines ----

/// The rule that a text starts with.
#[verifier::opaque]
pub open spec fn rule_at(s: Seq<char>) -> Option<(nat, RuleModel)> {
    match filter_at(s) {
        None => None,
        Some((n, filter)) => {
            let b = blank_run(s.skip(n as int));
            if b == 0 {
                None
            } else {
                match action_at(s.skip((n + b) as int)) {
                    Some((m, action)) => Some((n + b + m, RuleModel { filter, action })),
                    None => None,
                }
            }
        },
    }
}

/// The comment that a text starts with: a hash sign and the rest of the line. A
/// carriage return may stand only before a line feed.
pub open spec fn comment_at(s: Seq<char>) -> Option<nat> {
    if s.len() == 0 || s[0] != '#' {
        None
    } else {
        let n = 1 + line_run(s.skip(1));
        if n < s.len() && s[n as int] == '\r' && !(n + 1 < s.len() && s[(n + 1) as int] == '\n') {
            None
        } else {
            Some(n)
        }
    }
}

/// How many characters the comment takes that a text may start with.
pub open spec fn comment_run(s: Seq<char>) -> nat {
    comment_at(s).unwrap_or(0)
}

/// Whether a line holds nothing but blanks and at most one comment.
pub open spec fn is_empty_line(s: Seq<char>) -> bool {
    let a = blank_run(s);
    let b = a + comment_run(s.skip(a as int));
    b + blank_run(s.skip(b as int)) == s.len()
}

/// What a line says: nothing or a rule, where it is well formed.
pub open spec fn line_result(s: Seq<char>) -> Option<Option<RuleModel>> {
    if is_empty_line(s) {
        Some(None)
    } else {
        let a = blank_run(s);
        match rule_at(s.skip(a as int)) {
            None => None,
            Some((n, rule)) => {
                let b = a + n + blank_run(s.skip((a + n) as int));
                if b + comment_run(s.skip(b as int)) == s.len() {
                    Some(Some(rule))
                } else {
                    None
                }
            },
        }
    }
}

// ---- reading ----

proof fn lemma_runs(s: Seq<char>)
    ensures
        blank_run(s) <= s.len(),
        id_run(s) <= s.len(),
        line_run(s) <= s.len(),
        mark_run(s) <= s.len(),
    decreases s.len(),
{
    if s.len() > 0 {
        lemma_runs(s.skip(1));
    }
}

/// How many blanks `s` starts with.
pub(crate) fn count_blanks(s: &str) -> (n: usize)
    ensures
        n == blank_run(s@),
        n <= s@.len(),
{
    let len = s.unicode_len();
    let mut i: usize = 0;
    assert(s@.skip(0) =~= s@);
    while i < len && (s.get_char(i) == ' ' || s.get_char(i) == '\t')
        invariant
            len == s@.len(),
            i <= len,
            blank_run(s@) == i + blank_run(s@.skip(i as int)),
        decreases len - i,
    {
        assert(s@.skip(i as int).skip(1) =~= s@.skip(i + 1));
        i = i + 1;
    }
    i
}

fn count_id_chars(s: &str) -> (n: usize)
    ensures
        n == id_run(s@),
        n <= s@.len(),
{
    let len = s.unicode_len();
    let mut i: usize = 0;
    assert(s@.skip(0) =~= s@);
    while i < len
        invariant
            len == s@.len(),
            i <= len,
            id_run(s@) == i + id_run(s@.skip(i as int)),
        decreases len - i,
    {
        let c = s.get_char(i);
        if !c.is_alphanumeric() && c != '-' && c != '_' {
            return i;
        }
        assert(s@.skip(i as int).skip(1) =~= s@.skip(i + 1));
        i = i + 1;
    }
    i
}

fn count_to_line_end(s: &str) -> (n: usize)
    ensures
        n == line_run(s@),
        n <= s@.len(),
{
    let len = s.unicode_len();
    let mut i: usize = 0;
    assert(s@.skip(0) =~= s@);
    while i < len && s.get_char(i) != '\r' && s.get_char(i) != '\n'
        invariant
            len == s@.len(),
            i <= len,
            line_run(s@) == i + line_run(s@.skip(i as int)),
        decreases len - i,
    {
        assert(s@.skip(i as int).skip(1) =~= s@.skip(i + 1));
        i = i + 1;
    }
    i
}

fn count_marks(s: &str) -> (n: usize)
    ensures
        n == mark_run(s@),
        n <= s@.len(),
{
    let len = s.unicode_len();
    let mut i: usize = 0;
    assert(s@.skip(0) =~= s@);
    while i < len && s.get_char(i) == '!'
        invariant
            len == s@.len(),
            i <= len,
            mark_run(s@) == i + mark_run(s@.skip(i as int)),
        decreases len - i,
    {
        assert(s@.skip(i as int).skip(1) =~= s@.skip(i + 1));
        i = i + 1;
    }
    i
}

fn lower_char(c: char) -> (r: char)
    ensures
        r == crate::text::ascii_lower(c),
{
    if 'A' <= c && c <= 'Z' {
        ((c as u8) + 32) as char
    } else {
        c
    }
}

fn has_word(s: &str, word: &str) -> (r: bool)
    ensures
        r == starts_with_word(s@, word@),
{
    let n = word.unicode_len();
    if s.unicode_len() < n {
        return false;
    }
    let mut i: usize = 0;
    while i < n
        invariant
            n == word@.len(),
            n <= s@.len(),
            i <= n,
            forall|j: int|
                0 <= j < i ==> crate::text::ascii_lower(#[trigger] s@[j]) == crate::text::ascii_lower(word@[j]),
        decreases n - i,
    {
        if lower_char(s.get_char(i)) != lower_char(word.get_char(i)) {
            assert(crate::text::ascii_lower(s@[i as int]) != crate::text::ascii_lower(word@[i as int]));
            return false;
        }
        i = i + 1;
    }
    true
}

/// Reads a word and at least one blank behind it.
pub(crate) fn read_word<'a>(s: &'a str, word: &str) -> (r: Option<&'a str>)
    ensures
        match word_and_blanks(s@, word@) {
            Some(n) => n <= s@.len() && (r matches Some(t) && t@ == s@.skip(n as int)),
            None => r is None,
        },
{
    if !has_word(s, word) {
        return None;
    }
    let t = rest(s, word.unicode_len());
    let n = count_blanks(t);
    if n == 0 {
        return None;
    }
    let u = rest(t, n);
    assert(u@ =~= s@.skip((word@.len() + n) as int));
    Some(u)
}

/// Reads a port other than zero.
pub fn port_number(input: &str) -> (r: Result<(&str, u16), ParseError>)
    ensures
        match port_at(input@) {
            Some((n, port)) => {
                &&& n <= input@.len()
                &&& r matches Ok((left, found))
                &&& left@ == input@.skip(n as int)
                &&& found == port
            },
            None => r is Err,
        },
{
    match read_number(input, 10, 0xffff) {
        Some((n, v)) => if v == 0 {
            Err(ParseError)
        } else {
            Ok((rest(input, n), v as u16))
        },
        None => Err(ParseError),
    }
}

fn count_labels(s: &str) -> (n: usize)
    ensures
        n == label_run(s@),
        n <= s@.len(),
    decreases s@.len(),
{
    let len = s.unicode_len();
    let n = count_id_chars(s);
    if n == 0 {
        return 0;
    }
    let m = if n < len && s.get_char(n) == '.' {
        n + 1
    } else {
        n
    };
    m + count_labels(rest(s, m))
}

/// Reads a domain name.
pub fn domain_name(input: &str) -> (r: Result<(&str, String), ParseError>)
    ensures
        match domain_at(input@) {
            Some((n, name)) => {
                &&& n <= input@.len()
                &&& r matches Ok((left, found))
                &&& left@ == input@.skip(n as int)
                &&& found@ == name
            },
            None => r is Err,
        },
{
    let n = count_labels(input);
    if n > 0 {
        let name = if input.get_char(n - 1) == '.' {
            let t = front(input, n - 1);
            assert(t@ =~= input@.take(n as int).drop_last());
            t
        } else {
            front(input, n)
        };
        Ok((rest(input, n), to_lower(name)))
    } else if input.unicode_len() > 0 && input.get_char(0) == '.' {
        Ok((rest(input, 1), ".".to_owned()))
    } else {
        Err(ParseError)
    }
}

/// The first bits of the key of an address, and how many bits it has.
pub fn key_of(ip: IpAddr) -> (r: (u128, u8))
    ensures
        r.0 == address_key(ip).0,
        r.1 == address_key(ip).1,
{
    match ip {
        IpAddr::V4(v4) => {
            assert(v4.bits * 0x1_0000_0000_0000_0000_0000_0000 <= u128::MAX) by (nonlinear_arith)
                requires
                    v4.bits <= u32::MAX,
            ;
            ((v4.bits as u128) * 0x1_0000_0000_0000_0000_0000_0000, 32)
        },
        IpAddr::V6(v6) => (v6.bits, 128),
    }
}

/// Reads a network.
pub fn ip_network(input: &str) -> (r: Result<(&str, (IpAddr, u8)), ParseError>)
    ensures
        match network_at(input@) {
            Some((n, net)) => {
                &&& n <= input@.len()
                &&& r matches Ok((left, found))
                &&& left@ == input@.skip(n as int)
                &&& found == net
            },
            None => r is Err,
        },
{
    match read_ip(input) {
        None => Err(ParseError),
        Some((n, ip)) => {
            let (bits, whole) = key_of(ip);
            let t = rest(input, n);
            if t.unicode_len() > 0 && t.get_char(0) == '/' {
                let u = rest(t, 1);
                assert(u@ =~= input@.skip(n + 1));
                match read_number(u, 10, whole as u64) {
                    Some((m, len)) => {
                        let len = len as u8;
                        if network_of(bits, len) == bits {
                            let v = rest(u, m);
                            assert(v@ =~= input@.skip(n + 1 + m));
                            Ok((v, (ip, len)))
                        } else {
                            Err(ParseError)
                        }
                    },
                    None => Err(ParseError),
                }
            } else {
                Ok((t, (ip, whole)))
            }
        },
    }
}

/// Reads a filter on the destination's domain.
pub fn filter_dst_domain(input: &str) -> (r: Result<(&str, Filter), ParseError>)
    ensures
        match dst_domain_at(input@) {
            Some((n, filter)) => {
                &&& n <= input@.len()
                &&& r matches Ok((left, found))
                &&& left@ == input@.skip(n as int)
                &&& found@ == filter
            },
            None => r is Err,
        },
{
    match read_word(input, "dst domain") {
        None => Err(ParseError),
        Some(t) => match domain_name(t) {
            Ok((left, name)) => {
                proof {
                    let n = word_and_blanks(input@, "dst domain"@).unwrap();
                    let m = domain_at(t@).unwrap().0;
                    assert(left@ =~= input@.skip((n + m) as int));
                }
                Ok((left, Filter::Sni(name)))
            },
            Err(e) => Err(e),
        },
    }
}

/// Reads a filter on the destination's address.
pub fn filter_dst_ip(input: &str) -> (r: Result<(&str, Filter), ParseError>)
    ensures
        match dst_ip_at(input@) {
            Some((n, filter)) => {
                &&& n <= input@.len()
                &&& r matches Ok((left, found))
                &&& left@ == input@.skip(n as int)
                &&& found@ == filter
            },
            None => r is Err,
        },
{
    match read_word(input, "dst ip") {
        None => Err(ParseError),
        Some(t) => match ip_network(t) {
            Ok((left, net)) => {
                proof {
                    let n = word_and_blanks(input@, "dst ip"@).unwrap();
                    let m = network_at(t@).unwrap().0;
                    assert(left@ =~= input@.skip((n + m) as int));
                }
                Ok((left, Filter::DstIp(net)))
            },
            Err(e) => Err(e),
        },
    }
}

/// Reads a filter on the listening port.
pub fn filter_listen_port(input: &str) -> (r: Result<(&str, Filter), ParseError>)
    ensures
        match listen_port_at(input@) {
            Some((n, filter)) => {
                &&& n <= input@.len()
                &&& r matches Ok((left, found))
                &&& left@ == input@.skip(n as int)
                &&& found@ == filter
            },
            None => r is Err,
        },
{
    match read_word(input, "listen port") {
        None => Err(ParseError),
        Some(t) => match port_number(t) {
            Ok((left, port)) => {
                proof {
                    let n = word_and_blanks(input@, "listen port"@).unwrap();
                    let m = port_at(t@).unwrap().0;
                    assert(left@ =~= input@.skip((n + m) as int));
                }
                Ok((left, Filter::ListenPort(port)))
            },
            Err(e) => Err(e),
        },
    }
}

/// Reads the filter that accepts everything.
pub fn filter_default(input: &str) -> (r: Result<(&str, Filter), ParseError>)
    ensures
        match default_at(input@) {
            Some((n, filter)) => {
                &&& n <= input@.len()
                &&& r matches Ok((left, found))
                &&& left@ == input@.skip(n as int)
                &&& found@ == filter
            },
            None => r is Err,
        },
{
    let word = "default";
    if has_word(input, word) {
        Ok((rest(input, word.unicode_len()), Filter::Default))
    } else {
        Err(ParseError)
    }
}

/// Reads a filter.
pub fn rule_filter(input: &str) -> (r: Result<(&str, Filter), ParseError>)
    ensures
        match filter_at(input@) {
            Some((n, filter)) => {
                &&& n <= input@.len()
                &&& r matches Ok((left, found))
                &&& left@ == input@.skip(n as int)
                &&& found@ == filter
            },
            None => r is Err,
        },
{
    if let Ok(found) = filter_dst_domain(input) {
        return Ok(found);
    }
    if let Ok(found) = filter_dst_ip(input) {
        return Ok(found);
    }
    if let Ok(found) = filter_listen_port(input) {
        return Ok(found);
    }
    filter_default(input)
}

fn read_separator(s: &str, comma: bool) -> (r: Option<usize>)
    ensures
        match separator_at(s@, comma) {
            Some(n) => r == Some(n as usize) && n <= s@.len() && n <= usize::MAX && n > 0,
            None => r is None,
        },
{
    let len = s.unicode_len();
    let n = count_blanks(s);
    if comma {
        if n < len && s.get_char(n) == ',' {
            Some(n + 1 + count_blanks(rest(s, n + 1)))
        } else if n > 0 {
            Some(n)
        } else {
            None
        }
    } else if n == 0 {
        None
    } else {
        let t = rest(s, n);
        match read_word(t, "or") {
            Some(u) => Some(len - u.unicode_len()),
            None => None,
        }
    }
}

fn read_further_names(s: &str, comma: bool, names: &mut Vec<String>) -> (n: usize)
    ensures
        n == further_names(s@, comma).0,
        n <= s@.len(),
        super::capabilities::names_of(final(names)@) == super::capabilities::names_of(
            old(names)@,
        ) + further_names(s@, comma).1,
    decreases s@.len(),
{
    let ghost before = super::capabilities::names_of(names@);
    let len = s.unicode_len();
    assert(before + Seq::<Seq<char>>::empty() =~= before);
    match read_separator(s, comma) {
        None => 0,
        Some(n) => {
            let t = rest(s, n);
            let m = count_id_chars(t);
            if m == 0 {
                return 0;
            }
            let name = front(t, m);
            let ghost word = name@;
            names.push(name.to_owned());
            let u = rest(t, m);
            proof {
                assert(super::capabilities::names_of(names@) =~= before.push(word));
                assert(u@ =~= s@.skip(n + m));
                assert(word =~= s@.subrange(n as int, n + m));
            }
            let k = read_further_names(u, comma, names);
            proof {
                assert(n + m + k <= len);
                let later = further_names(u@, comma).1;
                assert(before.push(word) + later =~= before + (seq![word] + later));
            }
            n + m + k
        },
    }
}

/// Reads a list of names, and says how many characters it takes.
pub(crate) fn read_names(s: &str, comma: bool) -> (r: (usize, Vec<String>))
    ensures
        r.0 == names_at(s@, comma).0,
        r.0 <= s@.len(),
        super::capabilities::names_of(r.1@) == names_at(s@, comma).1,
{
    let len = s.unicode_len();
    let mut names: Vec<String> = Vec::new();
    assert(super::capabilities::names_of(names@) =~= Seq::<Seq<char>>::empty());
    let n = count_id_chars(s);
    if n == 0 {
        return (0, names);
    }
    let first = front(s, n);
    let ghost word = first@;
    names.push(first.to_owned());
    assert(super::capabilities::names_of(names@) =~= seq![word]);
    let k = read_further_names(rest(s, n), comma, &mut names);
    (n + k, names)
}

/// Reads a priority: up to five exclamation marks.
pub fn action_priority(input: &str) -> (r: Result<(&str, u8), ParseError>)
    ensures
        match priority_at(input@) {
            Some((n, priority)) => {
                &&& n <= input@.len()
                &&& r matches Ok((left, found))
                &&& left@ == input@.skip(n as int)
                &&& found == priority
            },
            None => r is Err,
        },
{
    let n = count_marks(input);
    if n <= 5 {
        Ok((rest(input, n), n as u8))
    } else {
        Err(ParseError)
    }
}

/// Reads a requirement.
pub fn action_require(input: &str) -> (r: Result<(&str, Action), ParseError>)
    ensures
        match require_at(input@) {
            Some((n, action)) => {
                &&& n <= input@.len()
                &&& r matches Ok((left, found))
                &&& left@ == input@.skip(n as int)
                &&& found@ == action
            },
            None => r is Err,
        },
{
    let word = "require";
    if !has_word(input, word) {
        return Err(ParseError);
    }
    let t = rest(input, word.unicode_len());
    match action_priority(t) {
        Err(e) => Err(e),
        Ok((u, priority)) => {
            let ghost a = word@.len() + priority_at(t@).unwrap().0;
            assert(u@ =~= input@.skip(a as int));
            let b = count_blanks(u);
            if b == 0 {
                return Err(ParseError);
            }
            let v = rest(u, b);
            assert(v@ =~= input@.skip((a + b) as int));
            let (k, names) = read_names(v, false);
            if names.len() == 0 {
                assert(super::capabilities::names_of(names@).len() == 0);
                return Err(ParseError);
            }
            let left = rest(v, k);
            assert(left@ =~= input@.skip((a + b + k) as int));
            let caps = CapRequirements::only(CapSet::new(names));
            Ok((left, ActionType::Require(caps).wrap(priority)))
        },
    }
}

fn read_plain_action<'a>(input: &'a str, word: &str) -> (r: Result<(&'a str, u8), ParseError>)
    ensures
        forall|kind: super::action::ActionKind| #[trigger]
            plain_action_at(input@, word@, kind) is Some <==> r is Ok,
        r matches Ok((left, priority)) ==> exists|n: nat|
            {
                &&& n <= input@.len()
                &&& left@ == #[trigger] input@.skip(n as int)
                &&& forall|kind: super::action::ActionKind| #[trigger]
                    plain_action_at(input@, word@, kind) == Some(
                        (n, super::action::ActionModel { priority, action: kind }),
                    )
            },
{
    if !has_word(input, word) {
        return Err(ParseError);
    }
    let t = rest(input, word.unicode_len());
    match action_priority(t) {
        Err(e) => Err(e),
        Ok((left, priority)) => {
            proof {
                let n = word@.len() + priority_at(t@).unwrap().0;
                assert(left@ =~= input@.skip(n as int));
            }
            Ok((left, priority))
        },
    }
}

/// Reads the action to connect directly.
pub fn action_direct(input: &str) -> (r: Result<(&str, Action), ParseError>)
    ensures
        match plain_action_at(input@, "direct"@, super::action::ActionKind::Direct) {
            Some((n, action)) => {
                &&& n <= input@.len()
                &&& r matches Ok((left, found))
                &&& left@ == input@.skip(n as int)
                &&& found@ == action
            },
            None => r is Err,
        },
{
    match read_plain_action(input, "direct") {
        Ok((left, priority)) => Ok((left, ActionType::Direct.wrap(priority))),
        Err(e) => Err(e),
    }
}

/// Reads the action to refuse.
pub fn action_reject(input: &str) -> (r: Result<(&str, Action), ParseError>)
    ensures
        match plain_action_at(input@, "reject"@, super::action::ActionKind::Reject) {
            Some((n, action)) => {
                &&& n <= input@.len()
                &&& r matches Ok((left, found))
                &&& left@ == input@.skip(n as int)
                &&& found@ == action
            },
            None => r is Err,
        },
{
    match read_plain_action(input, "reject") {
        Ok((left, priority)) => Ok((left, ActionType::Reject.wrap(priority))),
        Err(e) => Err(e),
    }
}

/// Reads an action.
pub fn rule_action(input: &str) -> (r: Result<(&str, Action), ParseError>)
    ensures
        match action_at(input@) {
            Some((n, action)) => {
                &&& n <= input@.len()
                &&& r matches Ok((left, found))
                &&& left@ == input@.skip(n as int)
                &&& found@ == action
            },
            None => r is Err,
        },
{
    if let Ok(found) = action_require(input) {
        return Ok(found);
    }
    if let Ok(found) = action_direct(input) {
        return Ok(found);
    }
    action_reject(input)
}

/// Reads a rule.
pub fn rule(input: &str) -> (r: Result<(&str, Rule), ParseError>)
    ensures
        match rule_at(input@) {
            Some((n, rule)) => {
                &&& n <= input@.len()
                &&& r matches Ok((left, found))
                &&& left@ == input@.skip(n as int)
                &&& found@ == rule
            },
            None => r is Err,
        },
{
    reveal(rule_at);
    match rule_filter(input) {
        Err(e) => Err(e),
        Ok((t, filter)) => {
            let ghost n = filter_at(input@).unwrap().0;
            let b = count_blanks(t);
            if b == 0 {
                return Err(ParseError);
            }
            let u = rest(t, b);
            assert(u@ =~= input@.skip((n + b) as int));
            match rule_action(u) {
                Err(e) => Err(e),
                Ok((left, action)) => {
                    proof {
                        let m = action_at(u@).unwrap().0;
                        assert(left@ =~= input@.skip((n + b + m) as int));
                    }
                    Ok((left, Rule { filter, action }))
                },
            }
        },
    }
}

/// Reads a comment.
pub fn comment(input: &str) -> (r: Result<(&str, ()), ParseError>)
    ensures
        match comment_at(input@) {
            Some(n) => {
                &&& n <= input@.len()
                &&& r matches Ok((left, _))
                &&& left@ == input@.skip(n as int)
            },
            None => r is Err,
        },
{
    let len = input.unicode_len();
    if len == 0 || input.get_char(0) != '#' {
        return Err(ParseError);
    }
    let n = 1 + count_to_line_end(rest(input, 1));
    if n < len && input.get_char(n) == '\r' && !(n < len - 1 && input.get_char(n + 1) == '\n') {
        return Err(ParseError);
    }
    Ok((rest(input, n), ()))
}

/// What follows the comment that `s` may start with.
pub(crate) fn skip_comment<'a>(s: &'a str) -> (r: &'a str)
    ensures
        r@ == s@.skip(comment_run(s@) as int),
        comment_run(s@) <= s@.len(),
{
    match comment(s) {
        Ok((left, _)) => left,
        Err(_) => {
            assert(s@.skip(0) =~= s@);
            s
        },
    }
}

/// Reads a list of capabilities, with commas or blanks between them.
pub fn capabilities(input: &str) -> (r: Result<(&str, CapSet), ParseError>)
    ensures
        names_at(input@, true).0 <= input@.len(),
        r matches Ok((left, caps)) && left@ == input@.skip(names_at(input@, true).0 as int)
            && caps@ == crate::order::sorted(names_at(input@, true).1),
{
    let (n, names) = read_names(input, true);
    Ok((rest(input, n), CapSet::new(names)))
}

/// Reads a whole line: nothing or a rule, with a comment behind it or not.
pub fn line_no_ending(input: &str) -> (r: Result<(&str, Option<Rule>), ParseError>)
    ensures
        match line_result(input@) {
            Some(None) => r matches Ok((left, None)) && left@.len() == 0,
            Some(Some(rule)) => {
                &&& r matches Ok((left, Some(found)))
                &&& left@.len() == 0
                &&& found@ == rule
            },
            None => r is Err,
        },
{
    let ghost s = input@;
    let a = count_blanks(input);
    let t = rest(input, a);
    let u = skip_comment(t);
    let ghost b = a + comment_run(t@);
    assert(u@ =~= s.skip(b as int));
    let blanks = count_blanks(u);
    if blanks == u.unicode_len() {
        assert(is_empty_line(s));
        return Ok((rest(u, blanks), None));
    }
    assert(!is_empty_line(s));
    match rule(t) {
        Err(e) => Err(e),
        Ok((v, found)) => {
            let ghost n = rule_at(t@).unwrap().0;
            assert(v@ =~= s.skip((a + n) as int));
            let c = count_blanks(v);
            let w = rest(v, c);
            assert(w@ =~= s.skip((a + n + c) as int));
            let left = skip_comment(w);
            if left.unicode_len() == 0 {
                Ok((left, Some(found)))
            } else {
                Err(ParseError)
            }
        },
    }
}

// ---- laws ----

proof fn lemma_blanks(blanks: Seq<char>, tail: Seq<char>)
    requires
        forall|i: int| 0 <= i < blanks.len() ==> is_blank(#[trigger] blanks[i]),
        tail.len() > 0 ==> !is_blank(tail[0]),
    ensures
        blank_run(blanks + tail) == blanks.len(),
    decreases blanks.len(),
{
    let s = blanks + tail;
    if blanks.len() == 0 {
        assert(s =~= tail);
    } else {
        assert(s[0] == blanks[0]);
        assert(s.skip(1) =~= blanks.skip(1) + tail);
        assert forall|i: int| 0 <= i < blanks.skip(1).len() implies is_blank(
            #[trigger] blanks.skip(1)[i],
        ) by {
            assert(blanks.skip(1)[i] == blanks[i + 1]);
        }
        lemma_blanks(blanks.skip(1), tail);
    }
}

proof fn lemma_whole_line(s: Seq<char>)
    requires
        forall|i: int| 0 <= i < s.len() ==> #[trigger] s[i] != '\r' && s[i] != '\n',
    ensures
        line_run(s) == s.len(),
    decreases s.len(),
{
    if s.len() > 0 {
        assert forall|i: int| 0 <= i < s.skip(1).len() implies #[trigger] s.skip(1)[i] != '\r'
            && s.skip(1)[i] != '\n' by {
            assert(s.skip(1)[i] == s[i + 1]);
        }
        lemma_whole_line(s.skip(1));
    }
}

/// A line that is a comment says nothing, whatever the comment says and however
/// many blanks stand before it.
pub proof fn lemma_comments_say_nothing(blanks: Seq<char>, comment: Seq<char>)
    requires
        forall|i: int| 0 <= i < blanks.len() ==> is_blank(#[trigger] blanks[i]),
        forall|i: int|
            0 <= i < comment.len() ==> #[trigger] comment[i] != '\r' && comment[i] != '\n',
    ensures
        line_result(blanks + (seq!['#'] + comment)) == Some(None::<RuleModel>),
{
    let tail = seq!['#'] + comment;
    let s = blanks + tail;
    lemma_blanks(blanks, tail);
    lemma_whole_line(comment);
    let a = blanks.len();
    assert(s.skip(a as int) =~= tail);
    assert(tail.skip(1) =~= comment);
    assert(comment_run(tail) == tail.len());
    assert(s.skip((a + tail.len()) as int) =~= Seq::<char>::empty());
}

/// The text of a rule on a listening port.
pub open spec fn port_rule_text(port: u16, action: Seq<char>) -> Seq<char> {
    "listen port "@ + (crate::text::dec(port as nat) + (" "@ + action))
}

/// A rule on a listening port is read back from its text.
pub proof fn lemma_port_rule_read_back(port: u16)
    requires
        port > 0,
    ensures
        line_result(port_rule_text(port, "direct"@)) == Some(
            Some(
                RuleModel {
                    filter: FilterModel::ListenPort(port),
                    action: super::action::ActionModel {
                        priority: 0,
                        action: super::action::ActionKind::Direct,
                    },
                },
            ),
        ),
        line_result(port_rule_text(port, "reject"@)) == Some(
            Some(
                RuleModel {
                    filter: FilterModel::ListenPort(port),
                    action: super::action::ActionModel {
                        priority: 0,
                        action: super::action::ActionKind::Reject,
                    },
                },
            ),
        ),
{
    reveal_strlit("direct");
    reveal_strlit("reject");
    reveal_strlit("require");
    lemma_port_rule(port, "direct"@);
    lemma_port_rule(port, "reject"@);
    let direct = "direct"@;
    let reject = "reject"@;
    assert(direct[0] == 'd' && reject[0] == 'r' && reject[2] == 'j' && "require"@[2] == 'q');
    assert(!starts_with_word(reject, "require"@)) by {
        assert(crate::text::ascii_lower(reject[2]) != crate::text::ascii_lower("require"@[2]));
    }
    assert(!starts_with_word(direct, "require"@)) by {
        assert(direct.len() < "require"@.len());
    }
    assert(!starts_with_word(reject, "direct"@)) by {
        assert(crate::text::ascii_lower(reject[0]) != crate::text::ascii_lower("direct"@[0]));
    }
    assert(direct.skip(6) =~= Seq::<char>::empty());
    assert(reject.skip(6) =~= Seq::<char>::empty());
    assert(priority_at(Seq::<char>::empty()) == Some((0nat, 0u8)));
    assert(action_at(direct).unwrap().0 == 6);
    assert(action_at(reject).unwrap().0 == 6);
}

proof fn lemma_whole_name(s: Seq<char>)
    requires
        forall|i: int| 0 <= i < s.len() ==> is_id_char(#[trigger] s[i]),
    ensures
        id_run(s) == s.len(),
    decreases s.len(),
{
    if s.len() > 0 {
        assert forall|i: int| 0 <= i < s.skip(1).len() implies is_id_char(
            #[trigger] s.skip(1)[i],
        ) by {
            assert(s.skip(1)[i] == s[i + 1]);
        }
        lemma_whole_name(s.skip(1));
    }
}

proof fn lemma_requirement(cap: Seq<char>)
    requires
        cap.len() > 0,
        forall|i: int| 0 <= i < cap.len() ==> is_id_char(#[trigger] cap[i]),
    ensures
        action_at("require "@ + cap) == Some(
            (
                8 + cap.len(),
                super::action::ActionModel {
                    priority: 0,
                    action: super::action::ActionKind::Require(set![seq![cap]]),
                },
            ),
        ),
{
    reveal_strlit("require ");
    reveal_strlit("require");
    reveal_strlit(" ");
    let word = "require"@;
    let s = "require "@ + cap;
    assert(starts_with_word(s, word)) by {
        assert forall|i: int| 0 <= i < word.len() implies crate::text::ascii_lower(#[trigger] s[i])
            == crate::text::ascii_lower(word[i]) by {
            assert(s[i] == "require "@[i]);
        }
    }
    assert(s.skip(7) =~= " "@ + cap);
    assert(s.skip(7)[0] == ' ');
    assert(priority_at(s.skip(7)) == Some((0nat, 0u8)));
    assert(is_id_char(cap[0]));
    lemma_blanks(" "@, cap);
    assert(s.skip(8) =~= cap);
    lemma_whole_name(cap);
    assert(cap.take(cap.len() as int) =~= cap);
    assert(cap.skip(cap.len() as int) =~= Seq::<char>::empty());
    let names = seq![cap];
    assert(further_names(Seq::<char>::empty(), false) == (0nat, Seq::<Seq<char>>::empty()));
    assert(names_at(cap, false).1 =~= names);
    crate::order::lemma_str_order(cap, cap);
    crate::order::lemma_sorted_is(names, names);
}

/// A rule that requires a capability on a listening port is read back from its
/// text.
pub proof fn lemma_port_requirement_read_back(port: u16, cap: Seq<char>)
    requires
        port > 0,
        cap.len() > 0,
        forall|i: int| 0 <= i < cap.len() ==> is_id_char(#[trigger] cap[i]),
    ensures
        line_result(port_rule_text(port, "require "@ + cap)) == Some(
            Some(
                RuleModel {
                    filter: FilterModel::ListenPort(port),
                    action: super::action::ActionModel {
                        priority: 0,
                        action: super::action::ActionKind::Require(set![seq![cap]]),
                    },
                },
            ),
        ),
{
    reveal_strlit("require ");
    let action = "require "@ + cap;
    assert(action[0] == 'r');
    lemma_requirement(cap);
    lemma_port_rule(port, action);
}

proof fn lemma_port_words(s: Seq<char>, tail: Seq<char>)
    requires
        s == "listen port "@ + tail,
        tail.len() > 0,
        !is_blank(tail[0]),
    ensures
        word_and_blanks(s, "dst domain"@) is None,
        word_and_blanks(s, "dst ip"@) is None,
        word_and_blanks(s, "listen port"@) == Some(12nat),
        s.skip(12) == tail,
        s.len() == 12 + tail.len(),
        s[0] == 'l',
{
    reveal_strlit("listen port ");
    reveal_strlit("listen port");
    reveal_strlit("dst domain");
    reveal_strlit("dst ip");
    reveal_strlit(" ");
    let word = "listen port"@;
    assert(s[0] == 'l');
    assert(!starts_with_word(s, "dst domain"@)) by {
        assert(crate::text::ascii_lower(s[0]) != crate::text::ascii_lower("dst domain"@[0]));
    }
    assert(!starts_with_word(s, "dst ip"@)) by {
        assert(crate::text::ascii_lower(s[0]) != crate::text::ascii_lower("dst ip"@[0]));
    }
    assert(starts_with_word(s, word)) by {
        assert forall|i: int| 0 <= i < word.len() implies crate::text::ascii_lower(#[trigger] s[i])
            == crate::text::ascii_lower(word[i]) by {
            assert(s[i] == "listen port "@[i]);
        }
    }
    assert(s.skip(11) =~= " "@ + tail);
    lemma_blanks(" "@, tail);
    assert(s.skip(12) =~= tail);
}

proof fn lemma_port_filter(port: u16, end: Seq<char>)
    requires
        port > 0,
        end.len() > 0,
        end[0] == ' ',
    ensures
        filter_at("listen port "@ + (crate::text::dec(port as nat) + end)) == Some(
            (12 + crate::text::dec(port as nat).len(), FilterModel::ListenPort(port)),
        ),
{
    let number = crate::text::dec(port as nat);
    let s = "listen port "@ + (number + end);
    crate::number::lemma_number_read_back(port as nat, end, 0xffff);
    crate::number::lemma_dec_digits(port as nat);
    assert((number + end)[0] == number[0]);
    lemma_port_words(s, number + end);
}

proof fn lemma_port_rule(port: u16, action: Seq<char>)
    requires
        port > 0,
        action.len() > 0,
        !is_blank(action[0]),
        action[0] != '#',
    ensures
        action_at(action) matches Some((n, a)) ==> (n == action.len() ==> line_result(
            port_rule_text(port, action),
        ) == Some(Some(RuleModel { filter: FilterModel::ListenPort(port), action: a }))),
{
    reveal(rule_at);
    reveal_strlit(" ");
    let number = crate::text::dec(port as nat);
    let end = " "@ + action;
    let s = port_rule_text(port, action);
    lemma_port_filter(port, end);
    crate::number::lemma_dec_digits(port as nat);
    assert((number + end)[0] == number[0]);
    lemma_port_words(s, number + end);
    assert(blank_run(s) == 0);
    assert(s.skip(0) =~= s);
    let n = 12 + number.len();
    assert(s.skip(n as int) =~= end) by {
        assert(s.skip(n as int) =~= s.skip(12).skip(number.len() as int));
        assert((number + end).skip(number.len() as int) =~= end);
    }
    lemma_blanks(" "@, action);
    assert(s.skip((n + 1) as int) =~= action) by {
        assert(s.skip((n + 1) as int) =~= end.skip(1));
        assert(end.skip(1) =~= action);
    }
    assert(s.skip(s.len() as int) =~= Seq::<char>::empty());
    assert(comment_run(s) == 0);
}

// ---- how rules are written ----

/// Whether a text is a word in small letters, written in small or capital
/// letters.
pub open spec fn spells(s: Seq<char>, word: Seq<char>) -> bool {
    &&& s.len() == word.len()
    &&& forall|i: int|
        0 <= i < s.len() ==> (#[trigger] s[i]) == word[i] || ('A' <= s[i] && s[i] <= 'Z' && s[i] as int
            + 32 == word[i] as int)
}

/// Whether a text is made of spaces and tabulators alone.
pub open spec fn are_blanks(s: Seq<char>) -> bool {
    forall|i: int| 0 <= i < s.len() ==> (#[trigger] s[i]) == ' ' || s[i] == '\t'
}

/// Whether a text is a comment, or empty.
pub open spec fn is_comment_or_empty(s: Seq<char>) -> bool {
    s.len() > 0 ==> {
        &&& s[0] == '#'
        &&& forall|i: int| 0 < i < s.len() ==> (#[trigger] s[i]) != '\r' && s[i] != '\n'
    }
}

/// Whether a text is a name: letters, digits, hyphens and underscores of ASCII.
pub open spec fn is_plain_name(s: Seq<char>) -> bool {
    &&& s.len() > 0
    &&& forall|i: int|
        0 <= i < s.len() ==> {
            let c = #[trigger] s[i];
            ('a' <= c && c <= 'z') || ('A' <= c && c <= 'Z') || ('0' <= c && c <= '9') || c == '-'
                || c == '_'
        }
}

/// Whether a text is a domain: names with one dot between each two of them, and
/// perhaps one more at the end.
pub open spec fn is_plain_domain(s: Seq<char>) -> bool {
    &&& s.len() > 0
    &&& s[0] != '.'
    &&& forall|i: int|
        0 <= i < s.len() ==> {
            let c = #[trigger] s[i];
            ('a' <= c && c <= 'z') || ('A' <= c && c <= 'Z') || ('0' <= c && c <= '9') || c == '-'
                || c == '_' || c == '.'
        }
    &&& forall|i: int| 0 < i < s.len() ==> !((#[trigger] s[i]) == '.' && s[i - 1] == '.')
}

/// Some names with a separator between each two neighbours.
pub open spec fn listed(names: Seq<Seq<char>>, separator: Seq<char>) -> Seq<char>
    decreases names.len(),
{
    if names.len() == 0 {
        Seq::empty()
    } else if names.len() == 1 {
        names[0]
    } else {
        names[0] + (separator + listed(names.skip(1), separator))
    }
}

pub(crate) proof fn lemma_blank_run_is(blanks: Seq<char>, tail: Seq<char>)
    requires
        are_blanks(blanks),
        tail.len() > 0 ==> tail[0] != ' ' && tail[0] != '\t',
    ensures
        blank_run(blanks + tail) == blanks.len(),
        (blanks + tail).skip(blanks.len() as int) == tail,
{
    assert forall|i: int| 0 <= i < blanks.len() implies is_blank(#[trigger] blanks[i]) by {}
    lemma_blanks(blanks, tail);
    assert((blanks + tail).skip(blanks.len() as int) =~= tail);
}

pub(crate) proof fn lemma_spelled(s: Seq<char>, word: Seq<char>, tail: Seq<char>)
    requires
        spells(s, word),
        forall|i: int| 0 <= i < word.len() ==> !('A' <= (#[trigger] word[i]) && word[i] <= 'Z'),
    ensures
        starts_with_word(s + tail, word),
        forall|i: int| 0 <= i < s.len() ==> crate::text::ascii_lower(#[trigger] s[i]) == word[i],
        (s + tail).skip(s.len() as int) == tail,
{
    assert forall|i: int| 0 <= i < s.len() implies crate::text::ascii_lower(#[trigger] s[i])
        == word[i] by {
        assert(!('A' <= word[i] && word[i] <= 'Z'));
    }
    let t = s + tail;
    assert forall|i: int| 0 <= i < word.len() implies crate::text::ascii_lower(#[trigger] t[i])
        == crate::text::ascii_lower(word[i]) by {
        assert(t[i] == s[i]);
    }
    assert(t.skip(s.len() as int) =~= tail);
}

pub(crate) proof fn lemma_other_word(s: Seq<char>, word: Seq<char>, i: int)
    requires
        0 <= i < word.len(),
        i < s.len(),
        crate::text::ascii_lower(s[i]) != crate::text::ascii_lower(word[i]),
    ensures
        !starts_with_word(s, word),
{
}

pub(crate) proof fn lemma_spelled_and_blanks(
    s: Seq<char>,
    word: Seq<char>,
    blanks: Seq<char>,
    tail: Seq<char>,
)
    requires
        spells(s, word),
        forall|i: int| 0 <= i < word.len() ==> !('A' <= (#[trigger] word[i]) && word[i] <= 'Z'),
        are_blanks(blanks),
        blanks.len() > 0,
        tail.len() > 0 ==> tail[0] != ' ' && tail[0] != '\t',
    ensures
        word_and_blanks(s + (blanks + tail), word) == Some(s.len() + blanks.len()),
        (s + (blanks + tail)).skip((s.len() + blanks.len()) as int) == tail,
{
    lemma_spelled(s, word, blanks + tail);
    lemma_blank_run_is(blanks, tail);
    assert((s + (blanks + tail)).skip((s.len() + blanks.len()) as int) =~= tail);
}

proof fn lemma_id_run_is(s: Seq<char>, tail: Seq<char>)
    requires
        forall|i: int| 0 <= i < s.len() ==> is_id_char(#[trigger] s[i]),
        tail.len() > 0 ==> !is_id_char(tail[0]),
    ensures
        id_run(s + tail) == s.len(),
    decreases s.len(),
{
    if s.len() == 0 {
        assert(s + tail =~= tail);
    } else {
        assert((s + tail)[0] == s[0]);
        assert((s + tail).skip(1) =~= s.skip(1) + tail);
        assert forall|i: int| 0 <= i < s.skip(1).len() implies is_id_char(
            #[trigger] s.skip(1)[i],
        ) by {
            assert(s.skip(1)[i] == s[i + 1]);
        }
        lemma_id_run_is(s.skip(1), tail);
    }
}

proof fn lemma_id_run_ends(s: Seq<char>)
    ensures
        id_run(s) <= s.len(),
        forall|i: int| 0 <= i < id_run(s) ==> is_id_char(#[trigger] s[i]),
        id_run(s) < s.len() ==> !is_id_char(s[id_run(s) as int]),
    decreases s.len(),
{
    if s.len() > 0 && is_id_char(s[0]) {
        let t = s.skip(1);
        lemma_id_run_ends(t);
        assert forall|i: int| 0 <= i < id_run(s) implies is_id_char(#[trigger] s[i]) by {
            if i > 0 {
                assert(t[i - 1] == s[i]);
            }
        }
        if id_run(s) < s.len() {
            assert(t[id_run(t) as int] == s[id_run(s) as int]);
        }
    }
}

proof fn lemma_labels(name: Seq<char>, end: Seq<char>)
    requires
        name.len() > 0 ==> name[0] != '.',
        forall|i: int| 0 <= i < name.len() ==> is_id_char(#[trigger] name[i]) || name[i] == '.',
        forall|i: int| 0 < i < name.len() ==> !((#[trigger] name[i]) == '.' && name[i - 1] == '.'),
        end.len() > 0 ==> !is_id_char(end[0]) && end[0] != '.',
    ensures
        label_run(name + end) == name.len(),
    decreases name.len(),
{
    let s = name + end;
    if name.len() == 0 {
        assert(s =~= end);
    } else {
        let n = id_run(name);
        lemma_id_run_ends(name);
        let label = name.take(n as int);
        assert(is_id_char(name[0]));
        assert(n > 0);
        if n < name.len() {
            assert(name[n as int] == '.');
            let behind = name.skip(n as int) + end;
            assert(s =~= label + behind);
            assert(behind[0] == '.');
            lemma_id_run_is(label, behind);
            let more = name.skip((n + 1) as int);
            assert(s.skip((n + 1) as int) =~= more + end);
            assert(s[n as int] == '.');
            assert forall|i: int| 0 <= i < more.len() implies is_id_char(#[trigger] more[i])
                || more[i] == '.' by {
                assert(more[i] == name[i + n + 1]);
            }
            assert forall|i: int| 0 < i < more.len() implies !((#[trigger] more[i]) == '.' && more[i
                - 1] == '.') by {
                assert(more[i] == name[i + n + 1]);
                assert(more[i - 1] == name[i + n]);
            }
            if more.len() > 0 {
                assert(more[0] == name[n as int + 1]);
            }
            lemma_labels(more, end);
        } else {
            lemma_id_run_is(name, end);
            assert(s.skip(n as int) =~= end);
            assert(label_run(end) == 0);
            if end.len() > 0 {
                assert(s[n as int] == end[0]);
            }
        }
    }
}

/// `dst domain` with a domain behind it is meant for that domain in small
/// letters, without a dot at its end; with a dot alone it is meant for the root.
pub proof fn lemma_domain_filter(
    word: Seq<char>,
    blanks: Seq<char>,
    name: Seq<char>,
    end: Seq<char>,
)
    requires
        spells(word, "dst domain"@),
        are_blanks(blanks),
        blanks.len() > 0,
        is_plain_domain(name) || name == seq!['.'],
        end.len() > 0 ==> end[0] == ' ' || end[0] == '\t',
    ensures
        filter_at(word + (blanks + (name + end))) == Some(
            (word.len() + blanks.len() + name.len(), FilterModel::Sni(meant_domain(name))),
        ),
{
    reveal_strlit("dst domain");
    let t = name + end;
    assert(t[0] == name[0]);
    lemma_spelled_and_blanks(word, "dst domain"@, blanks, t);
    lemma_domain_text(name, end);
}

/// The domain that is meant by a text: in small letters, without a dot at its
/// end, and the root where it is a dot alone.
pub open spec fn meant_domain(name: Seq<char>) -> Seq<char> {
    if name == seq!['.'] {
        name
    } else {
        Seq::new(
            if name.last() == '.' {
                (name.len() - 1) as nat
            } else {
                name.len()
            },
            |i: int|
                if 'A' <= name[i] && name[i] <= 'Z' {
                    (name[i] as u32 + 32) as char
                } else {
                    name[i]
                },
        )
    }
}

pub(crate) proof fn lemma_domain_text(name: Seq<char>, end: Seq<char>)
    requires
        is_plain_domain(name) || name == seq!['.'],
        end.len() > 0 ==> end[0] == ' ' || end[0] == '\t',
    ensures
        domain_at(name + end) == Some((name.len(), meant_domain(name))),
{
    reveal_strlit(".");
    let t = name + end;
    assert(t[0] == name[0]);
    if name == seq!['.'] {
        assert(id_run(t) == 0);
        assert(label_run(t) == 0);
        assert("."@ =~= seq!['.']);
    } else {
        assert forall|i: int| 0 <= i < name.len() implies is_id_char(#[trigger] name[i]) || name[i]
            == '.' by {}
        lemma_labels(name, end);
        assert(t.take(name.len() as int) =~= name);
        let bare = without_last_dot(name);
        assert(vstd::utf8::is_ascii_chars(bare)) by {
            assert forall|i: int| 0 <= i < bare.len() implies (#[trigger] bare[i] as u32) < 128 by {
                assert(bare[i] == name[i]);
            }
        }
        assert(lowered(bare) =~= meant_domain(name));
    }
}

proof fn lemma_ip_words(word: Seq<char>, blanks: Seq<char>, tail: Seq<char>)
    requires
        spells(word, "dst ip"@),
        are_blanks(blanks),
        blanks.len() > 0,
        tail.len() > 0,
        tail[0] != ' ' && tail[0] != '\t',
    ensures
        filter_at(word + (blanks + tail)) == match network_at(tail) {
            Some((n, (ip, len))) => Some(
                (word.len() + blanks.len() + n, FilterModel::DstIp(ip, len)),
            ),
            None => None,
        },
{
    reveal_strlit("dst domain");
    reveal_strlit("dst ip");
    reveal_strlit("listen port");
    reveal_strlit("default");
    let s = word + (blanks + tail);
    lemma_spelled_and_blanks(word, "dst ip"@, blanks, tail);
    lemma_spelled(word, "dst ip"@, blanks + tail);
    assert(s[0] == word[0] && s[1] == word[1] && s[4] == word[4]);
    lemma_other_word(s, "dst domain"@, 4);
    lemma_other_word(s, "listen port"@, 0);
    lemma_other_word(s, "default"@, 1);
}

/// `dst ip` with an IPv4 address behind it is meant for that address alone, or
/// with a slash and a number for the network of a prefix of that length. It is
/// refused where the prefix is longer than an address or a bit behind it is set.
#[verifier::rlimit(40)]
pub proof fn lemma_ipv4_filter(
    word: Seq<char>,
    blanks: Seq<char>,
    ip: crate::net::Ipv4Addr,
    len: nat,
    end: Seq<char>,
)
    requires
        spells(word, "dst ip"@),
        are_blanks(blanks),
        blanks.len() > 0,
        end.len() > 0 ==> end[0] == ' ' || end[0] == '\t',
    ensures
        ({
            let address = crate::net::ipv4_spelled(ip);
            let network = address + (seq!['/'] + crate::text::dec(len));
            let rest = vstd::arithmetic::power2::pow2((32 - len) as nat);
            &&& filter_at(word + (blanks + (address + end))) == Some(
                (
                    word.len() + blanks.len() + address.len(),
                    FilterModel::DstIp(IpAddr::V4(ip), 32),
                ),
            )
            &&& len <= 32 && ip.bits as nat % rest == 0 ==> filter_at(
                word + (blanks + (network + end)),
            ) == Some(
                (
                    word.len() + blanks.len() + network.len(),
                    FilterModel::DstIp(IpAddr::V4(ip), len as u8),
                ),
            )
            &&& len > 32 || ip.bits as nat % rest != 0 ==> filter_at(
                word + (blanks + (network + end)),
            ) is None
        }),
{
    let address = crate::net::ipv4_spelled(ip);
    let network = address + (seq!['/'] + crate::text::dec(len));
    lemma_ipv4_starts(ip);
    lemma_network_text(ip, len, end);
    assert((address + end)[0] == address[0]);
    assert((network + end)[0] == address[0]);
    lemma_ip_words(word, blanks, address + end);
    lemma_ip_words(word, blanks, network + end);
}

#[verifier::rlimit(40)]
proof fn lemma_network_text(ip: crate::net::Ipv4Addr, len: nat, end: Seq<char>)
    requires
        end.len() > 0 ==> end[0] == ' ' || end[0] == '\t',
    ensures
        ({
            let address = crate::net::ipv4_spelled(ip);
            let network = address + (seq!['/'] + crate::text::dec(len));
            let rest = vstd::arithmetic::power2::pow2((32 - len) as nat);
            &&& network_at(address + end) == Some((address.len(), (IpAddr::V4(ip), 32u8)))
            &&& len <= 32 && ip.bits as nat % rest == 0 ==> network_at(network + end) == Some(
                (network.len(), (IpAddr::V4(ip), len as u8)),
            )
            &&& len > 32 || ip.bits as nat % rest != 0 ==> network_at(network + end) is None
        }),
{
    let address = crate::net::ipv4_spelled(ip);
    let digits = crate::text::dec(len);
    let network = address + (seq!['/'] + digits);
    crate::net::lemma_ipv4_before_tail(ip, end);
    lemma_whole_text(IpAddr::V4(ip), address, end);
    let tail = seq!['/'] + (digits + end);
    assert(network + end =~= address + tail);
    crate::net::lemma_ipv4_before_tail(ip, tail);
    lemma_prefix_text(IpAddr::V4(ip), address, len, end);
    if len <= 32 {
        super::prefix::lemma_network_of_ipv4(ip.bits, len);
    }
}

proof fn lemma_whole_text(ip: IpAddr, address: Seq<char>, end: Seq<char>)
    requires
        end.len() > 0 ==> end[0] == ' ' || end[0] == '\t',
        crate::net::ip_at(address + end) == Some((address.len(), ip)),
    ensures
        network_at(address + end) == Some((address.len(), (ip, address_key(ip).1 as u8))),
{
    if end.len() > 0 {
        assert((address + end)[address.len() as int] == end[0]);
    }
}

#[verifier::rlimit(40)]
proof fn lemma_prefix_text(ip: IpAddr, address: Seq<char>, len: nat, end: Seq<char>)
    requires
        end.len() > 0 ==> end[0] == ' ' || end[0] == '\t',
        crate::net::ip_at(address + (seq!['/'] + (crate::text::dec(len) + end))) == Some(
            (address.len(), ip),
        ),
    ensures
        network_at(address + (seq!['/'] + (crate::text::dec(len) + end))) == if len
            <= address_key(ip).1 && is_ip_network(ip, len) {
            Some((address.len() + 1 + crate::text::dec(len).len(), (ip, len as u8)))
        } else {
            None
        },
{
    let digits = crate::text::dec(len);
    let tail = seq!['/'] + (digits + end);
    let text = address + tail;
    let whole = address_key(ip).1;
    assert(text[address.len() as int] == '/');
    assert(text.skip((address.len() + 1) as int) =~= digits + end);
    crate::number::lemma_dec_digits(len);
    crate::number::lemma_number_read_back(len, end, len);
    if len <= whole {
        crate::number::lemma_number_read_back(len, end, whole);
    }
}

proof fn lemma_ipv4_starts(ip: crate::net::Ipv4Addr)
    ensures
        crate::net::ipv4_spelled(ip).len() > 0,
        crate::net::ipv4_spelled(ip)[0] != ' ',
        crate::net::ipv4_spelled(ip)[0] != '\t',
{
    let s = crate::net::ipv4_spelled(ip);
    let none = Seq::<char>::empty();
    crate::net::lemma_ipv4_before_tail(ip, none);
    assert(s + none =~= s);
    if s.len() == 0 || s[0] == ' ' || s[0] == '\t' {
        crate::net::lemma_no_address(s);
    }
}

/// `listen port` with a number behind it is meant for that port. It is refused
/// where the number is zero or larger than a port can be.
pub proof fn lemma_listen_port_filter(
    word: Seq<char>,
    blanks: Seq<char>,
    port: nat,
    end: Seq<char>,
)
    requires
        spells(word, "listen port"@),
        are_blanks(blanks),
        blanks.len() > 0,
        end.len() > 0 ==> end[0] == ' ' || end[0] == '\t',
    ensures
        ({
            let digits = crate::text::dec(port);
            let s = word + (blanks + (digits + end));
            &&& 0 < port <= 65535 ==> filter_at(s) == Some(
                (
                    word.len() + blanks.len() + digits.len(),
                    FilterModel::ListenPort(port as u16),
                ),
            )
            &&& port == 0 || port > 65535 ==> filter_at(s) is None
        }),
{
    reveal_strlit("dst domain");
    reveal_strlit("dst ip");
    reveal_strlit("listen port");
    reveal_strlit("default");
    let digits = crate::text::dec(port);
    let t = digits + end;
    let s = word + (blanks + t);
    crate::number::lemma_dec_digits(port);
    assert(t[0] == digits[0]);
    assert(crate::number::digit_value(digits[0], 10) is Some);
    lemma_spelled_and_blanks(word, "listen port"@, blanks, t);
    lemma_spelled(word, "listen port"@, blanks + t);
    assert(s[0] == word[0]);
    lemma_other_word(s, "dst domain"@, 0);
    lemma_other_word(s, "dst ip"@, 0);
    lemma_other_word(s, "default"@, 0);
    crate::number::lemma_number_read_back(port, end, port);
    if port <= 65535 {
        crate::number::lemma_number_read_back(port, end, 65535);
    }
}

/// `default` is meant for every connection.
pub proof fn lemma_default_filter(word: Seq<char>, end: Seq<char>)
    requires
        spells(word, "default"@),
    ensures
        filter_at(word + end) == Some((word.len(), FilterModel::Default)),
{
    reveal_strlit("dst domain");
    reveal_strlit("dst ip");
    reveal_strlit("listen port");
    reveal_strlit("default");
    let s = word + end;
    lemma_spelled(word, "default"@, end);
    assert(s[0] == word[0] && s[1] == word[1]);
    lemma_other_word(s, "dst domain"@, 1);
    lemma_other_word(s, "dst ip"@, 1);
    lemma_other_word(s, "listen port"@, 0);
}

proof fn lemma_mark_run_is(marks: Seq<char>, tail: Seq<char>)
    requires
        forall|i: int| 0 <= i < marks.len() ==> (#[trigger] marks[i]) == '!',
        tail.len() > 0 ==> tail[0] != '!',
    ensures
        mark_run(marks + tail) == marks.len(),
    decreases marks.len(),
{
    if marks.len() == 0 {
        assert(marks + tail =~= tail);
    } else {
        assert((marks + tail)[0] == marks[0]);
        assert((marks + tail).skip(1) =~= marks.skip(1) + tail);
        assert forall|i: int| 0 <= i < marks.skip(1).len() implies (#[trigger] marks.skip(1)[i])
            == '!' by {
            assert(marks.skip(1)[i] == marks[i + 1]);
        }
        lemma_mark_run_is(marks.skip(1), tail);
    }
}

/// `direct` and `reject` are actions, with as many steps of priority as there
/// are exclamation marks behind them, five at most.
pub proof fn lemma_plain_action(word: Seq<char>, marks: Seq<char>, end: Seq<char>)
    requires
        spells(word, "direct"@) || spells(word, "reject"@),
        forall|i: int| 0 <= i < marks.len() ==> (#[trigger] marks[i]) == '!',
        end.len() > 0 ==> end[0] != '!',
    ensures
        ({
            let s = word + (marks + end);
            let action = if spells(word, "direct"@) {
                super::action::ActionKind::Direct
            } else {
                super::action::ActionKind::Reject
            };
            &&& marks.len() <= 5 ==> action_at(s) == Some(
                (
                    word.len() + marks.len(),
                    super::action::ActionModel { priority: marks.len() as u8, action },
                ),
            )
            &&& marks.len() > 5 ==> action_at(s) is None
        }),
{
    reveal_strlit("direct");
    reveal_strlit("reject");
    reveal_strlit("require");
    let s = word + (marks + end);
    lemma_mark_run_is(marks, end);
    assert(s[0] == word[0] && s[2] == word[2]);
    if spells(word, "direct"@) {
        lemma_spelled(word, "direct"@, marks + end);
        lemma_other_word(s, "require"@, 0);
        lemma_other_word(s, "reject"@, 0);
    } else {
        lemma_spelled(word, "reject"@, marks + end);
        lemma_other_word(s, "require"@, 2);
        lemma_other_word(s, "direct"@, 0);
    }
}

/// Whether a text is read as what stands between two names, whatever name
/// follows it.
#[verifier::opaque]
pub open spec fn separates(separator: Seq<char>, comma: bool) -> bool {
    &&& separator.len() > 0
    &&& !is_id_char(separator[0])
    &&& forall|text: Seq<char>|
        text.len() > 0 && is_id_char(text[0]) ==> separator_at(#[trigger] (separator + text), comma)
            == Some(separator.len())
}

#[verifier::opaque]
spec fn go_on(s: Seq<char>, comma: bool, n: nat, names: Seq<Seq<char>>) -> bool {
    further_names(s, comma) == (n, names)
}

#[verifier::opaque]
spec fn are_listed(s: Seq<char>, comma: bool, n: nat, names: Seq<Seq<char>>) -> bool {
    names_at(s, comma) == (n, names)
}

proof fn lemma_first_name(
    first: Seq<char>,
    behind: Seq<char>,
    comma: bool,
    n: nat,
    names: Seq<Seq<char>>,
)
    requires
        is_plain_name(first),
        behind.len() > 0 ==> !is_id_char(behind[0]),
        go_on(behind, comma, n, names),
    ensures
        are_listed(first + behind, comma, first.len() + n, seq![first] + names),
{
    reveal(go_on);
    reveal(are_listed);
    let s = first + behind;
    assert forall|i: int| 0 <= i < first.len() implies is_id_char(#[trigger] first[i]) by {}
    lemma_id_run_is(first, behind);
    assert(s.skip(first.len() as int) =~= behind);
    assert(s.take(first.len() as int) =~= first);
}

#[verifier::rlimit(40)]
proof fn lemma_next_name(
    separator: Seq<char>,
    first: Seq<char>,
    behind: Seq<char>,
    comma: bool,
    n: nat,
    names: Seq<Seq<char>>,
)
    requires
        separates(separator, comma),
        is_plain_name(first),
        behind.len() > 0 ==> !is_id_char(behind[0]),
        go_on(behind, comma, n, names),
    ensures
        go_on(
            separator + (first + behind),
            comma,
            separator.len() + first.len() + n,
            seq![first] + names,
        ),
{
    reveal(go_on);
    let s = first + behind;
    assert(s[0] == first[0]);
    assert(separator_at(separator + s, comma) == Some(separator.len()) && separator.len() > 0) by {
        reveal(separates);
        assert(is_id_char(s[0]));
    }
    assert forall|i: int| 0 <= i < first.len() implies is_id_char(#[trigger] first[i]) by {}
    lemma_id_run_is(first, behind);
    let t = separator + s;
    let k = separator.len();
    let m = first.len();
    assert(t.skip(k as int) =~= s);
    assert(t.skip((k + m) as int) =~= behind);
    assert(t.subrange(k as int, (k + m) as int) =~= first);
}

#[verifier::rlimit(40)]
proof fn lemma_names_go_on(
    names: Seq<Seq<char>>,
    separator: Seq<char>,
    comma: bool,
    tail: Seq<char>,
)
    requires
        names.len() > 0,
        forall|i: int| 0 <= i < names.len() ==> is_plain_name(#[trigger] names[i]),
        separates(separator, comma),
        go_on(tail, comma, 0, Seq::empty()),
        tail.len() > 0 ==> !is_id_char(tail[0]),
    ensures
        are_listed(listed(names, separator) + tail, comma, listed(names, separator).len(), names),
        go_on(
            separator + (listed(names, separator) + tail),
            comma,
            separator.len() + listed(names, separator).len(),
            names,
        ),
    decreases names.len(),
{
    let first = names[0];
    let more = names.skip(1);
    if names.len() == 1 {
        lemma_first_name(first, tail, comma, 0, Seq::empty());
        lemma_next_name(separator, first, tail, comma, 0, Seq::empty());
        assert(seq![first] + Seq::<Seq<char>>::empty() =~= names);
    } else {
        assert forall|i: int| 0 <= i < more.len() implies is_plain_name(#[trigger] more[i]) by {
            assert(more[i] == names[i + 1]);
        }
        lemma_names_go_on(more, separator, comma, tail);
        let rest = listed(more, separator);
        let behind = separator + (rest + tail);
        assert(separator.len() > 0 && !is_id_char(separator[0])) by {
            reveal(separates);
        }
        lemma_listed(names, separator, tail);
        lemma_first_name(first, behind, comma, separator.len() + rest.len(), more);
        lemma_next_name(separator, first, behind, comma, separator.len() + rest.len(), more);
    }
}

proof fn lemma_further_names(
    names: Seq<Seq<char>>,
    separator: Seq<char>,
    comma: bool,
    tail: Seq<char>,
)
    requires
        names.len() > 0,
        forall|i: int| 0 <= i < names.len() ==> is_plain_name(#[trigger] names[i]),
        separates(separator, comma),
        further_names(tail, comma) == (0nat, Seq::<Seq<char>>::empty()),
        tail.len() > 0 ==> !is_id_char(tail[0]),
    ensures
        names_at(listed(names, separator) + tail, comma) == (
            listed(names, separator).len(),
            names,
        ),
{
    reveal(go_on);
    reveal(are_listed);
    lemma_names_go_on(names, separator, comma, tail);
}

proof fn lemma_listed(names: Seq<Seq<char>>, separator: Seq<char>, tail: Seq<char>)
    requires
        names.len() > 1,
    ensures
        ({
            let rest = listed(names.skip(1), separator);
            let behind = separator + (rest + tail);
            &&& listed(names, separator) + tail == names[0] + behind
            &&& seq![names[0]] + names.skip(1) == names
            &&& listed(names, separator).len() == names[0].len() + separator.len() + rest.len()
            &&& separator.len() > 0 ==> behind[0] == separator[0]
        }),
{
    let rest = listed(names.skip(1), separator);
    assert(listed(names, separator) + tail =~= names[0] + (separator + (rest + tail)));
    assert(seq![names[0]] + names.skip(1) =~= names);
}

/// `require` with names behind it that have `or` between them requires one of
/// these capabilities, with a step of priority for each exclamation mark.
#[verifier::rlimit(40)]
pub proof fn lemma_require_action(
    word: Seq<char>,
    marks: Seq<char>,
    blanks: Seq<char>,
    names: Seq<Seq<char>>,
    before: Seq<char>,
    or: Seq<char>,
    after: Seq<char>,
    gap: Seq<char>,
    comment: Seq<char>,
)
    requires
        spells(word, "require"@),
        forall|i: int| 0 <= i < marks.len() ==> (#[trigger] marks[i]) == '!',
        marks.len() <= 5,
        are_blanks(blanks),
        blanks.len() > 0,
        names.len() > 0,
        forall|i: int| 0 <= i < names.len() ==> is_plain_name(#[trigger] names[i]),
        are_blanks(before),
        before.len() > 0,
        spells(or, "or"@),
        are_blanks(after),
        after.len() > 0,
        are_blanks(gap),
        is_comment_or_empty(comment),
    ensures
        ({
            let list = listed(names, before + (or + after));
            action_at(word + (marks + (blanks + (list + (gap + comment))))) == Some(
                (
                    word.len() + marks.len() + blanks.len() + list.len(),
                    super::action::ActionModel {
                        priority: marks.len() as u8,
                        action: super::action::ActionKind::Require(
                            set![crate::order::sorted(names)],
                        ),
                    },
                ),
            )
        }),
{
    reveal_strlit("require");
    reveal_strlit("or");
    let separator = before + (or + after);
    let tail = gap + comment;
    let list = listed(names, separator);
    let text = list + tail;
    lemma_or_list(names, before, or, after, gap, comment);
    assert(is_plain_name(names[0]));
    assert(text[0] == names[0][0]);
    let s = word + (marks + (blanks + text));
    lemma_spelled(word, "require"@, marks + (blanks + text));
    assert((blanks + text)[0] == blanks[0]);
    lemma_mark_run_is(marks, blanks + text);
    lemma_blank_run_is(blanks, text);
    let a = word.len() + marks.len();
    assert(s.skip(a as int) =~= blanks + text);
    assert(s.skip((a + blanks.len()) as int) =~= text);
}

pub(crate) proof fn lemma_or_list(
    names: Seq<Seq<char>>,
    before: Seq<char>,
    or: Seq<char>,
    after: Seq<char>,
    gap: Seq<char>,
    comment: Seq<char>,
)
    requires
        names.len() > 0,
        forall|i: int| 0 <= i < names.len() ==> is_plain_name(#[trigger] names[i]),
        are_blanks(before),
        before.len() > 0,
        spells(or, "or"@),
        are_blanks(after),
        after.len() > 0,
        are_blanks(gap),
        is_comment_or_empty(comment),
    ensures
        ({
            let list = listed(names, before + (or + after));
            &&& names_at(list + (gap + comment), false) == (list.len(), names)
            &&& list.len() > 0
            &&& list[0] == names[0][0]
        }),
{
    reveal_strlit("or");
    let separator = before + (or + after);
    let tail = gap + comment;
    assert(separates(separator, false)) by {
        reveal(separates);
        assert(separator[0] == before[0]);
        assert forall|text: Seq<char>| text.len() > 0 && is_id_char(text[0]) implies separator_at(
            #[trigger] (separator + text),
            false,
        ) == Some(separator.len()) by {
            lemma_separator(before, or, after, text);
        }
    }
    assert(further_names(tail, false) == (0nat, Seq::<Seq<char>>::empty())) by {
        lemma_blank_run_is(gap, comment);
        if comment.len() > 0 {
            lemma_other_word(comment, "or"@, 0);
        }
    }
    assert(tail.len() > 0 ==> !is_id_char(tail[0])) by {
        if gap.len() > 0 {
            assert(tail[0] == gap[0]);
        } else if comment.len() > 0 {
            assert(tail[0] == comment[0]);
        }
    }
    assert(is_plain_name(names[0]));
    lemma_further_names(names, separator, false, tail);
}

proof fn lemma_separator(before: Seq<char>, or: Seq<char>, after: Seq<char>, text: Seq<char>)
    requires
        are_blanks(before),
        before.len() > 0,
        spells(or, "or"@),
        are_blanks(after),
        after.len() > 0,
        text.len() > 0,
        is_id_char(text[0]),
    ensures
        separator_at((before + (or + after)) + text, false) == Some(
            (before + (or + after)).len(),
        ),
{
    reveal_strlit("or");
    let t = or + (after + text);
    let s = (before + (or + after)) + text;
    assert(s =~= before + t);
    assert(t[0] == or[0]);
    lemma_spelled(or, "or"@, after + text);
    assert(crate::text::ascii_lower(or[0]) == 'o');
    lemma_blank_run_is(before, t);
    lemma_spelled_and_blanks(or, "or"@, after, text);
}

/// Names with blanks or a comma between them are a list of capabilities.
pub proof fn lemma_list_of_names(
    names: Seq<Seq<char>>,
    before: Seq<char>,
    after: Seq<char>,
    has_comma: bool,
)
    requires
        names.len() > 0,
        forall|i: int| 0 <= i < names.len() ==> is_plain_name(#[trigger] names[i]),
        are_blanks(before),
        are_blanks(after),
        has_comma || before.len() > 0,
    ensures
        ({
            let separator = if has_comma {
                before + (seq![','] + after)
            } else {
                before
            };
            names_at(listed(names, separator), true) == (listed(names, separator).len(), names)
        }),
{
    let separator = if has_comma {
        before + (seq![','] + after)
    } else {
        before
    };
    let none = Seq::<char>::empty();
    reveal(separates);
    assert forall|text: Seq<char>| text.len() > 0 && is_id_char(text[0]) implies separator_at(
        #[trigger] (separator + text),
        true,
    ) == Some(separator.len()) by {
        let s = separator + text;
        if has_comma {
            let t = seq![','] + (after + text);
            assert(s =~= before + t);
            lemma_blank_run_is(before, t);
            let n = before.len() as int;
            assert(s[n] == ',');
            assert(s.skip(n + 1) =~= after + text);
            lemma_blank_run_is(after, text);
        } else {
            lemma_blank_run_is(before, text);
            assert(s[before.len() as int] == text[0]);
        }
    }
    if has_comma && before.len() == 0 {
        assert(separator[0] == ',');
    } else {
        assert(separator[0] == before[0]);
    }
    lemma_further_names(names, separator, true, none);
    assert(listed(names, separator) + none =~= listed(names, separator));
}

/// A line with a filter and an action says the rule that they make, with any
/// number of blanks before and behind them and with or without a comment.
#[verifier::rlimit(40)]
pub proof fn lemma_line_of_rule(
    lead: Seq<char>,
    filter_text: Seq<char>,
    blanks: Seq<char>,
    action_text: Seq<char>,
    gap: Seq<char>,
    comment: Seq<char>,
    filter: FilterModel,
    action: super::action::ActionModel,
)
    requires
        are_blanks(lead),
        are_blanks(blanks),
        blanks.len() > 0,
        are_blanks(gap),
        is_comment_or_empty(comment),
        filter_text.len() > 0,
        filter_text[0] != ' ' && filter_text[0] != '\t' && filter_text[0] != '#',
        action_text.len() > 0,
        action_text[0] != ' ' && action_text[0] != '\t',
        filter_at(filter_text + (blanks + (action_text + (gap + comment)))) == Some(
            (filter_text.len(), filter),
        ),
        action_at(action_text + (gap + comment)) == Some((action_text.len(), action)),
    ensures
        line_result(lead + (filter_text + (blanks + (action_text + (gap + comment))))) == Some(
            Some(RuleModel { filter, action }),
        ),
{
    let e = action_text + (gap + comment);
    let f = filter_text + (blanks + e);
    assert(f[0] == filter_text[0]);
    assert(e[0] == action_text[0]);
    lemma_rule_of_parts(filter_text, blanks, e, filter);
    let n = filter_text.len() + blanks.len() + action_text.len();
    assert(f.skip(n as int) =~= gap + comment);
    lemma_line_from_rule(lead, f, n, RuleModel { filter, action }, gap, comment);
}

#[verifier::rlimit(40)]
proof fn lemma_line_from_rule(
    lead: Seq<char>,
    f: Seq<char>,
    n: nat,
    rule: RuleModel,
    gap: Seq<char>,
    behind: Seq<char>,
)
    requires
        are_blanks(lead),
        f.len() > 0,
        f[0] != ' ' && f[0] != '\t' && f[0] != '#',
        rule_at(f) == Some((n, rule)),
        n <= f.len(),
        f.skip(n as int) == gap + behind,
        are_blanks(gap),
        behind.len() > 0 ==> behind[0] != ' ' && behind[0] != '\t',
    ensures
        is_comment_or_empty(behind) ==> line_result(lead + f) == Some(Some(rule)),
        behind.len() > 0 && behind[0] != '#' ==> line_result(lead + f) is None,
{
    let s = lead + f;
    lemma_line_starts(lead, f);
    assert(s.skip((lead.len() + n) as int) =~= gap + behind);
    lemma_blank_run_is(gap, behind);
    assert(f.skip(n as int).len() == f.len() - n);
    assert(s.skip((lead.len() + n + gap.len()) as int) =~= (gap + behind).skip(gap.len() as int));
    if is_comment_or_empty(behind) {
        lemma_comment(behind);
    }
}

pub(crate) proof fn lemma_line_starts(lead: Seq<char>, f: Seq<char>)
    requires
        are_blanks(lead),
        f.len() > 0,
        f[0] != ' ' && f[0] != '\t' && f[0] != '#',
    ensures
        !is_empty_line(lead + f),
        blank_run(lead + f) == lead.len(),
        (lead + f).skip(lead.len() as int) == f,
{
    lemma_blank_run_is(lead, f);
    assert(comment_run(f) == 0);
    assert(blank_run(f) == 0);
}

#[verifier::rlimit(40)]
proof fn lemma_rule_of_parts(
    filter_text: Seq<char>,
    blanks: Seq<char>,
    e: Seq<char>,
    filter: FilterModel,
)
    requires
        are_blanks(blanks),
        e.len() > 0 ==> e[0] != ' ' && e[0] != '\t',
    ensures
        ({
            let f = filter_text + (blanks + e);
            &&& filter_at(f) is None ==> rule_at(f) is None
            &&& filter_at(f) == Some((filter_text.len(), filter)) ==> rule_at(f) == match action_at(
                e,
            ) {
                Some((n, action)) => if blanks.len() == 0 {
                    None
                } else {
                    Some(
                        (
                            filter_text.len() + blanks.len() + n,
                            RuleModel { filter, action },
                        ),
                    )
                },
                None => None,
            }
        }),
{
    reveal(rule_at);
    let f = filter_text + (blanks + e);
    assert(f.skip(filter_text.len() as int) =~= blanks + e);
    lemma_blank_run_is(blanks, e);
    assert(f.skip((filter_text.len() + blanks.len()) as int) =~= e);
}

pub(crate) proof fn lemma_comment(comment: Seq<char>)
    requires
        is_comment_or_empty(comment),
    ensures
        comment_run(comment) == comment.len(),
{
    if comment.len() > 0 {
        let text = comment.skip(1);
        assert forall|i: int| 0 <= i < text.len() implies #[trigger] text[i] != '\r' && text[i]
            != '\n' by {
            assert(text[i] == comment[i + 1]);
        }
        lemma_whole_line(text);
    }
}

/// A line that neither is empty nor starts with a filter and an action is
/// refused, and so is one with something else than a comment behind them.
#[verifier::rlimit(40)]
pub proof fn lemma_other_lines_are_refused(
    lead: Seq<char>,
    filter_text: Seq<char>,
    blanks: Seq<char>,
    text: Seq<char>,
    filter: FilterModel,
)
    requires
        are_blanks(lead),
        are_blanks(blanks),
        filter_text.len() > 0,
        filter_text[0] != ' ' && filter_text[0] != '\t' && filter_text[0] != '#',
        text.len() > 0 ==> text[0] != ' ' && text[0] != '\t',
    ensures
        ({
            let f = filter_text + (blanks + text);
            let is_filter = filter_at(f) == Some((filter_text.len(), filter));
            &&& filter_at(f) is None ==> line_result(lead + f) is None
            &&& is_filter && blanks.len() == 0 ==> line_result(lead + f) is None
            &&& is_filter && action_at(text) is None ==> line_result(lead + f) is None
            &&& is_filter ==> (action_at(text) matches Some((n, _)) ==> {
                let behind = text.skip(n as int);
                n < text.len() && behind[0] != ' ' && behind[0] != '\t' && behind[0] != '#'
                    ==> line_result(lead + f) is None
            })
        }),
{
    let f = filter_text + (blanks + text);
    assert(f[0] == filter_text[0]);
    lemma_rule_of_parts(filter_text, blanks, text, filter);
    lemma_line_without_rule(lead, f);
    if filter_at(f) == Some((filter_text.len(), filter)) && blanks.len() > 0 {
        if let Some((m, action)) = action_at(text) {
            let n = filter_text.len() + blanks.len() + m;
            let behind = text.skip(m as int);
            if m < text.len() && behind[0] != ' ' && behind[0] != '\t' && behind[0] != '#' {
                let none = Seq::<char>::empty();
                assert(f.skip(n as int) =~= none + behind);
                lemma_line_from_rule(lead, f, n, RuleModel { filter, action }, none, behind);
            }
        }
    }
}

proof fn lemma_line_without_rule(lead: Seq<char>, f: Seq<char>)
    requires
        are_blanks(lead),
        f.len() > 0,
        f[0] != ' ' && f[0] != '\t' && f[0] != '#',
    ensures
        rule_at(f) is None ==> line_result(lead + f) is None,
{
    lemma_line_starts(lead, f);
}

/// `dst ip` with an IPv6 address behind it is meant for that address alone, or
/// with a slash and a number for the network of a prefix of that length. It is
/// refused where the prefix is longer than an address or a bit behind it is set.
#[verifier::rlimit(40)]
pub proof fn lemma_ipv6_filter(
    word: Seq<char>,
    blanks: Seq<char>,
    ip: crate::net::Ipv6Addr,
    len: nat,
    end: Seq<char>,
)
    requires
        spells(word, "dst ip"@),
        are_blanks(blanks),
        blanks.len() > 0,
        end.len() > 0 ==> end[0] == ' ' || end[0] == '\t',
    ensures
        ({
            let address = crate::net::ipv6_spelled(ip);
            let network = address + (seq!['/'] + crate::text::dec(len));
            let rest = vstd::arithmetic::power2::pow2((128 - len) as nat);
            &&& filter_at(word + (blanks + (address + end))) == Some(
                (
                    word.len() + blanks.len() + address.len(),
                    FilterModel::DstIp(IpAddr::V6(ip), 128),
                ),
            )
            &&& len <= 128 && ip.bits as nat % rest == 0 ==> filter_at(
                word + (blanks + (network + end)),
            ) == Some(
                (
                    word.len() + blanks.len() + network.len(),
                    FilterModel::DstIp(IpAddr::V6(ip), len as u8),
                ),
            )
            &&& len > 128 || ip.bits as nat % rest != 0 ==> filter_at(
                word + (blanks + (network + end)),
            ) is None
        }),
{
    let address = crate::net::ipv6_spelled(ip);
    let network = address + (seq!['/'] + crate::text::dec(len));
    lemma_ipv6_network_text(ip, len, end);
    lemma_ipv6_starts(ip);
    assert((address + end)[0] == address[0]);
    assert((network + end)[0] == address[0]);
    lemma_ip_words(word, blanks, address + end);
    lemma_ip_words(word, blanks, network + end);
}

proof fn lemma_ipv6_starts(ip: crate::net::Ipv6Addr)
    ensures
        crate::net::ipv6_spelled(ip).len() > 0,
        crate::net::ipv6_spelled(ip)[0] != ' ',
        crate::net::ipv6_spelled(ip)[0] != '\t',
{
    let s = crate::net::ipv6_spelled(ip);
    let none = Seq::<char>::empty();
    crate::net::lemma_ipv6_before_tail(ip, none);
    assert(s + none =~= s);
    if s.len() == 0 {
        assert(s =~= none);
    }
    if s.len() == 0 || s[0] == ' ' || s[0] == '\t' {
        crate::net::lemma_no_address(s);
    }
}

#[verifier::rlimit(40)]
proof fn lemma_ipv6_network_text(ip: crate::net::Ipv6Addr, len: nat, end: Seq<char>)
    requires
        end.len() > 0 ==> end[0] == ' ' || end[0] == '\t',
    ensures
        ({
            let address = crate::net::ipv6_spelled(ip);
            let network = address + (seq!['/'] + crate::text::dec(len));
            let rest = vstd::arithmetic::power2::pow2((128 - len) as nat);
            &&& network_at(address + end) == Some((address.len(), (IpAddr::V6(ip), 128u8)))
            &&& len <= 128 && ip.bits as nat % rest == 0 ==> network_at(network + end) == Some(
                (network.len(), (IpAddr::V6(ip), len as u8)),
            )
            &&& len > 128 || ip.bits as nat % rest != 0 ==> network_at(network + end) is None
        }),
{
    let address = crate::net::ipv6_spelled(ip);
    let digits = crate::text::dec(len);
    let network = address + (seq!['/'] + digits);
    crate::net::lemma_ipv6_before_tail(ip, end);
    lemma_whole_text(IpAddr::V6(ip), address, end);
    let tail = seq!['/'] + (digits + end);
    assert(network + end =~= address + tail);
    crate::net::lemma_ipv6_before_tail(ip, tail);
    lemma_prefix_text(IpAddr::V6(ip), address, len, end);
    if len <= 128 {
        super::prefix::lemma_network_bits(ip.bits, len);
    }
}

/// A comment reaches to the end of its line. A carriage return ends it only
/// where a line feed follows; another one is refused.
pub proof fn lemma_end_of_comment(text: Seq<char>, end: Seq<char>)
    requires
        forall|i: int| 0 <= i < text.len() ==> #[trigger] text[i] != '\r' && text[i] != '\n',
    ensures
        comment_at(seq!['#'] + text) == Some(1 + text.len()),
        comment_at(seq!['#'] + (text + (seq!['\n'] + end))) == Some(1 + text.len()),
        comment_at(seq!['#'] + (text + (seq!['\r', '\n'] + end))) == Some(1 + text.len()),
        end.len() == 0 || end[0] != '\n' ==> comment_at(
            seq!['#'] + (text + (seq!['\r'] + end)),
        ) is None,
{
    let n = text.len() as int;
    lemma_whole_line(text);
    assert((seq!['#'] + text).skip(1) =~= text);
    let a = text + (seq!['\n'] + end);
    let b = text + (seq!['\r', '\n'] + end);
    let c = text + (seq!['\r'] + end);
    lemma_line_run_is(text, seq!['\n'] + end);
    lemma_line_run_is(text, seq!['\r', '\n'] + end);
    lemma_line_run_is(text, seq!['\r'] + end);
    let s = seq!['#'] + a;
    let t = seq!['#'] + b;
    let u = seq!['#'] + c;
    assert(s.skip(1) =~= a);
    assert(t.skip(1) =~= b);
    assert(u.skip(1) =~= c);
    assert(s[n + 1] == '\n');
    assert(t[n + 1] == '\r' && t[n + 2] == '\n');
    assert(u[n + 1] == '\r');
    if end.len() > 0 {
        assert(u[n + 2] == end[0]);
    }
}

proof fn lemma_line_run_is(text: Seq<char>, end: Seq<char>)
    requires
        forall|i: int| 0 <= i < text.len() ==> #[trigger] text[i] != '\r' && text[i] != '\n',
        end.len() > 0,
        end[0] == '\r' || end[0] == '\n',
    ensures
        line_run(text + end) == text.len(),
    decreases text.len(),
{
    if text.len() == 0 {
        assert(text + end =~= end);
    } else {
        let more = text.skip(1);
        assert((text + end)[0] == text[0]);
        assert((text + end).skip(1) =~= more + end);
        assert forall|i: int| 0 <= i < more.len() implies #[trigger] more[i] != '\r' && more[i]
            != '\n' by {
            assert(more[i] == text[i + 1]);
        }
        lemma_line_run_is(more, end);
    }
}

} // verus!
