//! What is to be done with a connection.

use super::capabilities::CapRequirements;
use vstd::prelude::*;

verus! {

/// What is to be done with a connection, and how strongly.
#[derive(Debug)]
pub struct Action {
    pub priority: u8,
    pub action: ActionType,
}

/// What is to be done with a connection.
#[derive(Debug)]
pub enum ActionType {
    /// Use a proxy server that meets the requirements.
    Require(CapRequirements),
    /// Connect without any proxy server.
    Direct,
    /// Refuse the connection.
    Reject,
}

/// The model of an action.
pub struct ActionModel {
    pub priority: u8,
    pub action: ActionKind,
}

/// The model of what an action does.
pub enum ActionKind {
    Require(Set<Seq<Seq<char>>>),
    Direct,
    Reject,
}

impl View for ActionType {
    type V = ActionKind;

    open spec fn view(&self) -> ActionKind {
        match self {
            ActionType::Require(caps) => ActionKind::Require(caps@),
            ActionType::Direct => ActionKind::Direct,
            ActionType::Reject => ActionKind::Reject,
        }
    }
}

impl View for Action {
    type V = ActionModel;

    open spec fn view(&self) -> ActionModel {
        ActionModel { priority: self.priority, action: self.action@ }
    }
}

/// Of two actions that apply, the one with the higher priority holds. Where the
/// priorities are equal, requirements add up, and otherwise the later one holds.
pub open spec fn combine(earlier: ActionModel, later: ActionModel) -> ActionModel {
    if earlier.priority < later.priority {
        later
    } else if earlier.priority > later.priority {
        earlier
    } else {
        match (earlier.action, later.action) {
            (ActionKind::Require(a), ActionKind::Require(b)) => ActionModel {
                priority: earlier.priority,
                action: ActionKind::Require(a.union(b)),
            },
            _ => later,
        }
    }
}

/// One action after the other, each combined with what holds so far.
pub open spec fn combine_all(first: ActionModel, others: Seq<ActionModel>) -> ActionModel
    decreases others.len(),
{
    if others.len() == 0 {
        first
    } else {
        combine(combine_all(first, others.drop_last()), others.last())
    }
}

/// The action that holds where nothing is said: no requirement at all.
pub open spec fn no_requirement() -> ActionModel {
    ActionModel { priority: 0, action: ActionKind::Require(Set::empty()) }
}

/// How many rules an action stands for.
pub open spec fn action_size(a: ActionModel) -> nat {
    match a.action {
        ActionKind::Require(caps) => caps.len(),
        _ => 1,
    }
}

/// The texts of capability sets.
pub open spec fn set_texts(sets: Seq<Seq<Seq<char>>>) -> Seq<Seq<char>> {
    sets.map_values(|names: Seq<Seq<char>>| super::capabilities::capset_text(names))
}

/// How an action is written: its kind, an exclamation mark for each step of
/// priority, and the requirements.
pub open spec fn action_text(a: ActionModel) -> Seq<char> {
    let marks = Seq::new(a.priority as nat, |i: int| '!');
    match a.action {
        ActionKind::Direct => "DIRECT"@ + marks,
        ActionKind::Reject => "REJECT"@ + marks,
        ActionKind::Require(caps) => {
            let sets = super::capabilities::in_order(caps);
            "REQUIRE"@ + marks + " "@ + if sets.len() == 0 {
                "NOTHING"@
            } else {
                super::capabilities::joined(set_texts(sets), " AND "@)
            }
        },
    }
}

impl Default for ActionType {
    /// No requirement.
    fn default() -> (r: ActionType)
        ensures
            r@ == ActionKind::Require(Set::empty()),
    {
        ActionType::Require(CapRequirements::new())
    }
}

impl Default for Action {
    /// No requirement.
    fn default() -> (r: Action)
        ensures
            r@ == no_requirement(),
    {
        Action { priority: 0, action: ActionType::default() }
    }
}

impl Clone for ActionType {
    fn clone(&self) -> (r: ActionType)
        ensures
            r@ == self@,
    {
        match self {
            ActionType::Require(caps) => ActionType::Require(caps.clone()),
            ActionType::Direct => ActionType::Direct,
            ActionType::Reject => ActionType::Reject,
        }
    }
}

impl Clone for Action {
    fn clone(&self) -> (r: Action)
        ensures
            r@ == self@,
    {
        Action { priority: self.priority, action: self.action.clone() }
    }
}

impl ActionType {
    /// The action with a priority.
    pub fn wrap(self, priority: u8) -> (r: Action)
        ensures
            r == (Action { priority, action: self }),
    {
        Action { priority, action: self }
    }

    /// Whether both do the same.
    pub fn same(&self, other: &ActionType) -> (r: bool)
        ensures
            r == (self@ == other@),
    {
        match (self, other) {
            (ActionType::Require(a), ActionType::Require(b)) => a.same(b),
            (ActionType::Direct, ActionType::Direct) => true,
            (ActionType::Reject, ActionType::Reject) => true,
            _ => false,
        }
    }
}

impl From<ActionType> for Action {
    /// The action with the lowest priority.
    fn from(action: ActionType) -> (r: Action) {
        Action { priority: 0, action }
    }
}

impl vstd::std_specs::convert::FromSpecImpl<ActionType> for Action {
    open spec fn obeys_from_spec() -> bool {
        true
    }

    open spec fn from_spec(action: ActionType) -> Action {
        Action { priority: 0, action }
    }
}

impl Action {
    /// How many rules the action stands for.
    pub fn len(&self) -> (n: usize)
        ensures
            n == action_size(self@),
    {
        match &self.action {
            ActionType::Require(set) => set.len(),
            ActionType::Direct => 1,
            ActionType::Reject => 1,
        }
    }

    /// Whether both do the same with the same priority.
    pub fn same(&self, other: &Action) -> (r: bool)
        ensures
            r == (self@ == other@),
    {
        self.priority == other.priority && self.action.same(&other.action)
    }

    /// Takes a later action into account.
    pub fn extend(&mut self, other: Action)
        ensures
            final(self)@ == combine(old(self)@, other@),
    {
        if self.priority < other.priority {
            *self = other;
        } else if self.priority == other.priority {
            let mut action = ActionType::Direct;
            std::mem::swap(&mut action, &mut self.action);
            self.action = match (action, other.action) {
                (ActionType::Require(caps), ActionType::Require(new_caps)) => {
                    ActionType::Require(caps.plus(new_caps))
                },
                (_, later) => later,
            };
        }
    }

    /// The action as text.
    pub fn to_string(&self) -> (s: String)
        ensures
            s@ == action_text(self@),
    {
        let ghost marks = Seq::new(self.priority as nat, |i: int| '!');
        let mut s = match &self.action {
            ActionType::Direct => "DIRECT".to_owned(),
            ActionType::Reject => "REJECT".to_owned(),
            ActionType::Require(_) => "REQUIRE".to_owned(),
        };
        let ghost head = s@;
        let mut i: u8 = 0;
        while i < self.priority
            invariant
                i <= self.priority,
                s@ == head + Seq::new(i as nat, |j: int| '!'),
            decreases self.priority - i,
        {
            s.push('!');
            i = i + 1;
            assert(s@ =~= head + Seq::new(i as nat, |j: int| '!'));
        }
        assert(s@ =~= head + marks);
        if let ActionType::Require(caps) = &self.action {
            s.push(' ');
            proof {
                reveal_strlit(" ");
                assert(s@ =~= head + marks + " "@);
            }
            let sets = caps.listed();
            let n = sets.len();
            let ghost listed = super::capabilities::in_order(caps@);
            let ghost texts = set_texts(listed);
            let ghost start = s@;
            if n == 0 {
                s.append("NOTHING");
                return s;
            }
            s.append(sets[0].to_string().as_str());
            let mut i: usize = 1;
            proof {
                assert(listed[0] == sets@[0]@);
                assert(texts.take(1) =~= seq![texts[0]]);
                assert(s@ =~= start + super::capabilities::joined(texts.take(1), " AND "@));
            }
            while i < n
                invariant
                    n == sets@.len(),
                    1 <= i <= n,
                    super::capabilities::sets_of(sets@) == listed,
                    texts == set_texts(listed),
                    s@ == start + super::capabilities::joined(texts.take(i as int), " AND "@),
                decreases n - i,
            {
                s.append(" AND ");
                s.append(sets[i].to_string().as_str());
                proof {
                    assert(listed[i as int] == sets@[i as int]@);
                    assert(texts.take(i + 1).drop_last() =~= texts.take(i as int));
                    assert(texts.take(i + 1).last() == texts[i as int]);
                    assert(s@ =~= start + super::capabilities::joined(
                        texts.take(i + 1),
                        " AND "@,
                    ));
                }
                i = i + 1;
            }
            assert(texts.take(n as int) =~= texts);
        }
        s
    }
}

// ---- laws ----

/// The priority of combined actions is the higher of the two.
pub proof fn lemma_combine_priority(earlier: ActionModel, later: ActionModel)
    ensures
        combine(earlier, later).priority == if earlier.priority < later.priority {
            later.priority
        } else {
            earlier.priority
        },
{
}

/// An action of a higher priority holds whichever comes first.
pub proof fn lemma_combine_higher_holds(low: ActionModel, high: ActionModel)
    requires
        low.priority < high.priority,
    ensures
        combine(low, high) == high,
        combine(high, low) == high,
{
}

/// Of two actions of the same priority the later one holds, unless both are
/// requirements.
pub proof fn lemma_combine_later_holds(earlier: ActionModel, later: ActionModel)
    requires
        earlier.priority == later.priority,
        !(earlier.action is Require && later.action is Require),
    ensures
        combine(earlier, later) == later,
{
}

/// An action combined with itself is that action.
pub proof fn lemma_combine_idempotent(a: ActionModel)
    ensures
        combine(a, a) == a,
{
    if let ActionKind::Require(caps) = a.action {
        assert(caps.union(caps) =~= caps);
    }
}

/// Where nothing is required before, an action stays as it is.
pub proof fn lemma_combine_with_nothing(a: ActionModel)
    ensures
        combine(no_requirement(), a) == a,
{
    if let ActionKind::Require(caps) = a.action {
        assert(Set::<Seq<Seq<char>>>::empty().union(caps) =~= caps);
    }
}

/// The order of requirements of the same priority does not matter.
pub proof fn lemma_combine_requirements_commute(a: ActionModel, b: ActionModel)
    requires
        a.action is Require,
        b.action is Require,
    ensures
        combine(a, b) == combine(b, a),
{
    if let (ActionKind::Require(x), ActionKind::Require(y)) = (a.action, b.action) {
        assert(x.union(y) =~= y.union(x));
    }
}

/// Combining a list and then another is combining both lists.
pub proof fn lemma_combine_all_append(
    first: ActionModel,
    a: Seq<ActionModel>,
    b: Seq<ActionModel>,
)
    ensures
        combine_all(first, a + b) == combine_all(combine_all(first, a), b),
    decreases b.len(),
{
    if b.len() == 0 {
        assert(a + b =~= a);
    } else {
        lemma_combine_all_append(first, a, b.drop_last());
        assert((a + b).drop_last() =~= a + b.drop_last());
        assert((a + b).last() == b.last());
    }
}

/// No action that was combined has a higher priority than the result, and the
/// result has the priority of one of them.
pub proof fn lemma_combine_all_priority(first: ActionModel, others: Seq<ActionModel>)
    ensures
        first.priority <= combine_all(first, others).priority,
        forall|i: int|
            0 <= i < others.len() ==> (#[trigger] others[i]).priority <= combine_all(
                first,
                others,
            ).priority,
        combine_all(first, others).priority == first.priority || exists|i: int|
            0 <= i < others.len() && (#[trigger] others[i]).priority == combine_all(
                first,
                others,
            ).priority,
    decreases others.len(),
{
    if others.len() > 0 {
        let front = others.drop_last();
        let n = others.len() - 1;
        lemma_combine_all_priority(first, front);
        assert(others[n] == others.last());
        assert forall|i: int| 0 <= i < others.len() implies (#[trigger] others[i]).priority
            <= combine_all(first, others).priority by {
            if i < n {
                assert(front[i] == others[i]);
            }
        }
        if combine_all(first, front).priority != first.priority && combine_all(
            first,
            others,
        ).priority == combine_all(first, front).priority {
            let i = choose|i: int|
                0 <= i < front.len() && (#[trigger] front[i]).priority == combine_all(
                    first,
                    front,
                ).priority;
            assert(others[i] == front[i]);
        }
    }
}

/// Where the last of some actions is no requirement and no other has a higher
/// priority, it holds.
pub proof fn lemma_last_holds(first: ActionModel, others: Seq<ActionModel>)
    requires
        others.len() > 0,
        !(others.last().action is Require),
        first.priority <= others.last().priority,
        forall|i: int|
            0 <= i < others.len() ==> (#[trigger] others[i]).priority <= others.last().priority,
    ensures
        combine_all(first, others) == others.last(),
{
    let front = others.drop_last();
    lemma_combine_all_priority(first, front);
    if combine_all(first, front).priority != first.priority {
        let i = choose|i: int|
            0 <= i < front.len() && (#[trigger] front[i]).priority == combine_all(
                first,
                front,
            ).priority;
        assert(others[i] == front[i]);
    }
}

/// Where all actions are requirements of the same priority, everything that one
/// of them requires is required, and nothing else.
pub proof fn lemma_all_requirements_count(
    first: ActionModel,
    others: Seq<ActionModel>,
    requirement: Seq<Seq<char>>,
)
    requires
        first.action is Require,
        forall|i: int|
            0 <= i < others.len() ==> (#[trigger] others[i]).action is Require
                && others[i].priority == first.priority,
    ensures
        combine_all(first, others).priority == first.priority,
        combine_all(first, others).action matches ActionKind::Require(all) && (all.contains(
            requirement,
        ) <==> first.action->Require_0.contains(requirement) || exists|i: int|
            0 <= i < others.len() && (#[trigger] others[i]).action->Require_0.contains(
                requirement,
            )),
    decreases others.len(),
{
    if others.len() > 0 {
        let front = others.drop_last();
        let n = others.len() - 1;
        assert(others[n] == others.last());
        assert forall|i: int| 0 <= i < front.len() implies (#[trigger] front[i]).action is Require
            && front[i].priority == first.priority by {
            assert(others[i] == front[i]);
        }
        lemma_all_requirements_count(first, front, requirement);
        if exists|i: int|
            0 <= i < front.len() && (#[trigger] front[i]).action->Require_0.contains(requirement) {
            let i = choose|i: int|
                0 <= i < front.len() && (#[trigger] front[i]).action->Require_0.contains(
                    requirement,
                );
            assert(others[i] == front[i]);
        }
        if exists|i: int|
            0 <= i < others.len() && (#[trigger] others[i]).action->Require_0.contains(
                requirement,
            ) {
            let i = choose|i: int|
                0 <= i < others.len() && (#[trigger] others[i]).action->Require_0.contains(
                    requirement,
                );
            if i < n {
                assert(others[i] == front[i]);
            }
        }
    }
}

/// An action is written with an exclamation mark for each step of priority.
pub proof fn lemma_marks_of_priority(a: ActionModel)
    requires
        a.priority < 255,
    ensures
        ({
            let higher = ActionModel { priority: (a.priority + 1) as u8, ..a };
            &&& a.action is Direct ==> action_text(higher) == action_text(a).push('!')
            &&& a.action is Reject ==> action_text(higher) == action_text(a).push('!')
            &&& action_text(higher).len() == action_text(a).len() + 1
            &&& a.priority == 0 && a.action is Direct ==> action_text(a) == "DIRECT"@
            &&& a.priority == 0 && a.action is Reject ==> action_text(a) == "REJECT"@
        }),
{
    let higher = ActionModel { priority: (a.priority + 1) as u8, ..a };
    if !(a.action is Require) {
        assert(action_text(higher) =~= action_text(a).push('!'));
    }
    if a.priority == 0 {
        assert(Seq::new(0, |i: int| '!') =~= Seq::<char>::empty());
        assert("DIRECT"@ + Seq::<char>::empty() =~= "DIRECT"@);
        assert("REJECT"@ + Seq::<char>::empty() =~= "REJECT"@);
    }
}

} // verus!
