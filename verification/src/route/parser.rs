//! The language of requirements.

use crate::policy::capabilities::CapSet;
use crate::policy::parser::{
    count_blanks, domain_name, port_number, read_names, read_word, skip_comment, ParseError,
};
use crate::text::rest;
use vstd::prelude::*;

verus! {

/// Which connections a rule is about.
#[derive(Debug)]
pub enum RuleFilter {
    /// Those that came in at a port.
    ListenPort(u16),
    /// Those that go to a domain.
    Sni(String),
}

/// What a rule asks for.
#[derive(Debug)]
pub enum RuleAction {
    /// One of the capabilities.
    Require(CapSet),
}

/// A rule: what to ask of which connections.
#[derive(Debug)]
pub struct Rule {
    pub filter: RuleFilter,
    pub action: RuleAction,
}

/// The model of a filter.
pub enum FilterModel {
    ListenPort(u16),
    Sni(Seq<char>),
}

/// The model of a rule.
pub struct RuleModel {
    pub filter: FilterModel,
    pub caps: Seq<Seq<char>>,
}

impl View for RuleFilter {
    type V = FilterModel;

    open spec fn view(&self) -> FilterModel {
        match self {
            RuleFilter::ListenPort(port) => FilterModel::ListenPort(*port),
            RuleFilter::Sni(name) => FilterModel::Sni(name@),
        }
    }
}

impl View for Rule {
    type V = RuleModel;

    open spec fn view(&self) -> RuleModel {
        match self.action {
            RuleAction::Require(caps) => RuleModel { filter: self.filter@, caps: caps@ },
        }
    }
}

/// The filter that a text starts with.
pub open spec fn filter_at(s: Seq<char>) -> Option<(nat, FilterModel)> {
    match crate::policy::parser::word_and_blanks(s, "listen-port"@) {
        Some(n) => match crate::policy::parser::port_at(s.skip(n as int)) {
            Some((m, port)) => Some((n + m, FilterModel::ListenPort(port))),
            None => None,
        },
        None => match crate::policy::parser::word_and_blanks(s, "sni"@) {
            Some(n) => match crate::policy::parser::domain_at(s.skip(n as int)) {
                Some((m, name)) => Some((n + m, FilterModel::Sni(name))),
                None => None,
            },
            None => None,
        },
    }
}

/// The rule that a text starts with.
#[verifier::opaque]
pub open spec fn rule_at(s: Seq<char>) -> Option<(nat, RuleModel)> {
    match filter_at(s) {
        None => None,
        Some((n, filter)) => {
            let a = n + crate::policy::parser::blank_run(s.skip(n as int));
            match crate::policy::parser::word_and_blanks(s.skip(a as int), "require"@) {
                None => None,
                Some(m) => {
                    let b = a + m;
                    let (k, names) = crate::policy::parser::names_at(s.skip(b as int), false);
                    if a == n || names.len() == 0 {
                        None
                    } else {
                        Some((b + k, RuleModel { filter, caps: crate::order::sorted(names) }))
                    }
                },
            }
        },
    }
}

/// What a line says: nothing or a rule, where it is well formed.
pub open spec fn line_result(s: Seq<char>) -> Option<Option<RuleModel>> {
    if crate::policy::parser::is_empty_line(s) {
        Some(None)
    } else {
        let a = crate::policy::parser::blank_run(s);
        match rule_at(s.skip(a as int)) {
            None => None,
            Some((n, rule)) => {
                let b = a + n + crate::policy::parser::blank_run(s.skip((a + n) as int));
                if b + crate::policy::parser::comment_run(s.skip(b as int)) == s.len() {
                    Some(Some(rule))
                } else {
                    None
                }
            },
        }
    }
}

/// Reads a filter.
pub fn rule_filter(input: &str) -> (r: Result<(&str, RuleFilter), ParseError>)
    ensures
        match filter_at(input@) {
            Some((n, filter)) => {
                &&& n <= input@.len()
                &&& r matches Ok((left, found))
                &&& left@ == input@.skip(n as int)
                &&& found@ == filter
            },
            None => r is Err,
        },
{
    match read_word(input, "listen-port") {
        Some(t) => match port_number(t) {
            Ok((left, port)) => {
                proof {
                    let n = filter_at(input@).unwrap().0;
                    assert(left@ =~= input@.skip(n as int));
                }
                Ok((left, RuleFilter::ListenPort(port)))
            },
            Err(e) => Err(e),
        },
        None => match read_word(input, "sni") {
            Some(t) => match domain_name(t) {
                Ok((left, name)) => {
                    proof {
                        let n = filter_at(input@).unwrap().0;
                        assert(left@ =~= input@.skip(n as int));
                    }
                    Ok((left, RuleFilter::Sni(name)))
                },
                Err(e) => Err(e),
            },
            None => Err(ParseError),
        },
    }
}

/// Reads a rule.
pub fn rule(input: &str) -> (r: Result<(&str, Rule), ParseError>)
    ensures
        match rule_at(input@) {
            Some((n, rule)) => {
                &&& n <= input@.len()
                &&& r matches Ok((left, found))
                &&& left@ == input@.skip(n as int)
                &&& found@ == rule
            },
            None => r is Err,
        },
{
    reveal(rule_at);
    match rule_filter(input) {
        Err(e) => Err(e),
        Ok((t, filter)) => {
            let ghost n = filter_at(input@).unwrap().0;
            let b = count_blanks(t);
            let u = rest(t, b);
            let ghost a = n + b;
            assert(u@ =~= input@.skip(a as int));
            match read_word(u, "require") {
                None => Err(ParseError),
                Some(v) => {
                    let ghost m = crate::policy::parser::word_and_blanks(u@, "require"@).unwrap();
                    assert(v@ =~= input@.skip((a + m) as int));
                    let (k, names) = read_names(v, false);
                    if b == 0 || names.len() == 0 {
                        assert(crate::policy::capabilities::names_of(names@).len() == names@.len());
                        return Err(ParseError);
                    }
                    let left = rest(v, k);
                    assert(left@ =~= input@.skip((a + m + k) as int));
                    Ok((left, Rule { filter, action: RuleAction::Require(CapSet::new(names)) }))
                },
            }
        },
    }
}

/// Reads a whole line: nothing or a rule, with a comment behind it or not.
pub fn line_no_ending(input: &str) -> (r: Result<(&str, Option<Rule>), ParseError>)
    ensures
        match line_result(input@) {
            Some(None) => r matches Ok((left, None)) && left@.len() == 0,
            Some(Some(rule)) => {
                &&& r matches Ok((left, Some(found)))
                &&& left@.len() == 0
                &&& found@ == rule
            },
            None => r is Err,
        },
{
    let ghost s = input@;
    let a = count_blanks(input);
    let t = rest(input, a);
    let u = skip_comment(t);
    let ghost b = a + crate::policy::parser::comment_run(t@);
    assert(u@ =~= s.skip(b as int));
    let blanks = count_blanks(u);
    if blanks == u.unicode_len() {
        assert(crate::policy::parser::is_empty_line(s));
        return Ok((rest(u, blanks), None));
    }
    assert(!crate::policy::parser::is_empty_line(s));
    match rule(t) {
        Err(e) => Err(e),
        Ok((v, found)) => {
            let ghost n = rule_at(t@).unwrap().0;
            assert(v@ =~= s.skip((a + n) as int));
            let c = count_blanks(v);
            let w = rest(v, c);
            assert(w@ =~= s.skip((a + n + c) as int));
            let left = skip_comment(w);
            if left.unicode_len() == 0 {
                Ok((left, Some(found)))
            } else {
                Err(ParseError)
            }
        },
    }
}

// ---- laws ----

/// `listen-port` with a number behind it is meant for that port, and refused
/// where the number is no port; `sni` with a domain behind it is meant for that
/// domain in small letters.
pub proof fn lemma_filters(
    port_word: Seq<char>,
    name_word: Seq<char>,
    blanks: Seq<char>,
    port: nat,
    name: Seq<char>,
    end: Seq<char>,
)
    requires
        crate::policy::parser::spells(port_word, "listen-port"@),
        crate::policy::parser::spells(name_word, "sni"@),
        crate::policy::parser::are_blanks(blanks),
        blanks.len() > 0,
        crate::policy::parser::is_plain_domain(name) || name == seq!['.'],
        end.len() > 0 ==> end[0] == ' ' || end[0] == '\t',
    ensures
        ({
            let digits = crate::text::dec(port);
            let by_port = filter_at(port_word + (blanks + (digits + end)));
            let by_name = filter_at(name_word + (blanks + (name + end)));
            &&& 0 < port <= 65535 ==> by_port == Some(
                (
                    port_word.len() + blanks.len() + digits.len(),
                    FilterModel::ListenPort(port as u16),
                ),
            )
            &&& port == 0 || port > 65535 ==> by_port is None
            &&& by_name == Some(
                (
                    name_word.len() + blanks.len() + name.len(),
                    FilterModel::Sni(crate::policy::parser::meant_domain(name)),
                ),
            )
        }),
{
    reveal_strlit("listen-port");
    reveal_strlit("sni");
    let digits = crate::text::dec(port);
    let a = digits + end;
    crate::number::lemma_dec_digits(port);
    assert(a[0] == digits[0]);
    assert(crate::number::digit_value(digits[0], 10) is Some);
    crate::policy::parser::lemma_spelled_and_blanks(port_word, "listen-port"@, blanks, a);
    crate::number::lemma_number_read_back(port, end, port);
    if port <= 65535 {
        crate::number::lemma_number_read_back(port, end, 65535);
    }
    let b = name + end;
    assert(b[0] == name[0]);
    let s = name_word + (blanks + b);
    crate::policy::parser::lemma_spelled_and_blanks(name_word, "sni"@, blanks, b);
    crate::policy::parser::lemma_spelled(name_word, "sni"@, blanks + b);
    assert(s[0] == name_word[0]);
    crate::policy::parser::lemma_other_word(s, "listen-port"@, 0);
    crate::policy::parser::lemma_domain_text(name, end);
}

#[verifier::rlimit(40)]
proof fn lemma_rule_of_parts(
    filter_text: Seq<char>,
    blanks: Seq<char>,
    word: Seq<char>,
    more: Seq<char>,
    text: Seq<char>,
    filter: FilterModel,
    k: nat,
    names: Seq<Seq<char>>,
)
    requires
        crate::policy::parser::are_blanks(blanks),
        blanks.len() > 0,
        crate::policy::parser::spells(word, "require"@),
        crate::policy::parser::are_blanks(more),
        more.len() > 0,
        text.len() > 0,
        text[0] != ' ' && text[0] != '\t',
        crate::policy::parser::names_at(text, false) == (k, names),
        names.len() > 0,
        filter_at(filter_text + (blanks + (word + (more + text)))) == Some(
            (filter_text.len(), filter),
        ),
    ensures
        rule_at(filter_text + (blanks + (word + (more + text)))) == Some(
            (
                filter_text.len() + blanks.len() + word.len() + more.len() + k,
                RuleModel { filter, caps: crate::order::sorted(names) },
            ),
        ),
{
    reveal(rule_at);
    reveal_strlit("require");
    let e = word + (more + text);
    let f = filter_text + (blanks + e);
    assert(e[0] == word[0]);
    crate::policy::parser::lemma_spelled_and_blanks(word, "require"@, more, text);
    assert(word[0] != ' ' && word[0] != '\t') by {
        crate::policy::parser::lemma_spelled(word, "require"@, more + text);
        assert(crate::text::ascii_lower(word[0]) == 'r');
    }
    assert(f.skip(filter_text.len() as int) =~= blanks + e);
    crate::policy::parser::lemma_blank_run_is(blanks, e);
    let n = filter_text.len() + blanks.len();
    assert(f.skip(n as int) =~= e);
    assert(f.skip((n + word.len() + more.len()) as int) =~= text);
}

/// A line with a filter and names behind `require` that have `or` between them
/// requires one of these capabilities, with any number of blanks before and
/// behind it and with or without a comment.
#[verifier::rlimit(40)]
pub proof fn lemma_line_of_rule(
    lead: Seq<char>,
    filter_text: Seq<char>,
    blanks: Seq<char>,
    word: Seq<char>,
    more: Seq<char>,
    names: Seq<Seq<char>>,
    or: Seq<char>,
    gap: Seq<char>,
    comment: Seq<char>,
    filter: FilterModel,
)
    requires
        crate::policy::parser::are_blanks(lead),
        crate::policy::parser::are_blanks(blanks),
        blanks.len() > 0,
        crate::policy::parser::spells(word, "require"@),
        crate::policy::parser::are_blanks(more),
        more.len() > 0,
        names.len() > 0,
        forall|i: int|
            0 <= i < names.len() ==> crate::policy::parser::is_plain_name(#[trigger] names[i]),
        crate::policy::parser::spells(or, "or"@),
        crate::policy::parser::are_blanks(gap),
        crate::policy::parser::is_comment_or_empty(comment),
        filter_text.len() > 0,
        filter_text[0] != ' ' && filter_text[0] != '\t' && filter_text[0] != '#',
        ({
            let list = crate::policy::parser::listed(names, more + (or + more));
            filter_at(filter_text + (blanks + (word + (more + (list + (gap + comment)))))) == Some(
                (filter_text.len(), filter),
            )
        }),
    ensures
        ({
            let list = crate::policy::parser::listed(names, more + (or + more));
            line_result(
                lead + (filter_text + (blanks + (word + (more + (list + (gap + comment)))))),
            ) == Some(Some(RuleModel { filter, caps: crate::order::sorted(names) }))
        }),
{
    let list = crate::policy::parser::listed(names, more + (or + more));
    let text = list + (gap + comment);
    crate::policy::parser::lemma_or_list(names, more, or, more, gap, comment);
    assert(crate::policy::parser::is_plain_name(names[0]));
    assert(text[0] == names[0][0]);
    lemma_rule_of_parts(filter_text, blanks, word, more, text, filter, list.len(), names);
    let f = filter_text + (blanks + (word + (more + text)));
    let n = filter_text.len() + blanks.len() + word.len() + more.len() + list.len();
    assert(f[0] == filter_text[0]);
    assert(f.skip(n as int) =~= gap + comment);
    lemma_line_from_rule(
        lead,
        f,
        n,
        RuleModel { filter, caps: crate::order::sorted(names) },
        gap,
        comment,
    );
}

proof fn lemma_line_from_rule(
    lead: Seq<char>,
    f: Seq<char>,
    n: nat,
    rule: RuleModel,
    gap: Seq<char>,
    comment: Seq<char>,
)
    requires
        crate::policy::parser::are_blanks(lead),
        f.len() > 0,
        f[0] != ' ' && f[0] != '\t' && f[0] != '#',
        rule_at(f) == Some((n, rule)),
        n <= f.len(),
        f.skip(n as int) == gap + comment,
        crate::policy::parser::are_blanks(gap),
        crate::policy::parser::is_comment_or_empty(comment),
    ensures
        line_result(lead + f) == Some(Some(rule)),
{
    let s = lead + f;
    crate::policy::parser::lemma_line_starts(lead, f);
    assert(s.skip((lead.len() + n) as int) =~= gap + comment);
    crate::policy::parser::lemma_blank_run_is(gap, comment);
    assert(f.skip(n as int).len() == f.len() - n);
    assert(s.skip((lead.len() + n + gap.len()) as int) =~= (gap + comment).skip(gap.len() as int));
    crate::policy::parser::lemma_comment(comment);
}

} // verus!
