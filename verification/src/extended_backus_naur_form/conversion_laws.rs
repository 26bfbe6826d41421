//! What holds of every rewriting of an extended production.

use crate::backus_naur_form::Bnf;
use crate::extended_backus_naur_form::ebnf_element::Ebnf;
use crate::extended_backus_naur_form::element_conversion_result::{Conversion, Conversions};
use crate::extended_backus_naur_form::normalization_pass::PassState;
use crate::extended_backus_naur_form::{
    converted,
    converted_children,
    converted_repetition,
    repetition_rule,
};
use crate::model::Variable;
use vstd::prelude::*;

verus! {

/// Whether no repetition occurs in `el`, at any depth.
pub open spec fn is_plain(el: Ebnf) -> bool
    decreases el,
{
    match el {
        Ebnf::Epsilon => true,
        Ebnf::Terminal(_) => true,
        Ebnf::Variable(_) => true,
        Ebnf::Optional(sub) => is_plain(*sub),
        Ebnf::RepetitionZero(_) => false,
        Ebnf::RepetitionOne(_) => false,
        Ebnf::Alternative(children) => forall|i: int|
            0 <= i < children.len() ==> is_plain(#[trigger] children[i]),
        Ebnf::Sequence(children) => forall|i: int|
            0 <= i < children.len() ==> is_plain(#[trigger] children[i]),
    }
}

/// The plain production of the same shape as `el`, where `el` has no
/// repetition.
pub open spec fn as_plain(el: Ebnf) -> Bnf
    recommends
        is_plain(el),
    decreases el,
{
    match el {
        Ebnf::Epsilon => Bnf::Epsilon,
        Ebnf::Terminal(terminal) => Bnf::Terminal(terminal),
        Ebnf::Variable(variable) => Bnf::Variable(variable),
        Ebnf::Optional(sub) => Bnf::Optional(Box::new(as_plain(*sub))),
        Ebnf::RepetitionZero(_) => Bnf::Epsilon,
        Ebnf::RepetitionOne(_) => Bnf::Epsilon,
        Ebnf::Alternative(children) => Bnf::Alternative(
            Seq::new(
                children.len(),
                |i: int|
                    if 0 <= i < children.len() {
                        as_plain(children[i])
                    } else {
                        Bnf::Epsilon
                    },
            ),
        ),
        Ebnf::Sequence(children) => Bnf::Sequence(
            Seq::new(
                children.len(),
                |i: int|
                    if 0 <= i < children.len() {
                        as_plain(children[i])
                    } else {
                        Bnf::Epsilon
                    },
            ),
        ),
    }
}

/// Rewriting a production without repetition gives the plain production of
/// the same shape, mints nothing and leaves the state of the pass as it was.
pub proof fn lemma_plain_production_is_kept(el: Ebnf, state: PassState)
    requires
        is_plain(el),
    ensures
        converted(el, state) == Some((Conversion::simple(as_plain(el)), state)),
    decreases el, 0nat,
{
    match el {
        Ebnf::Optional(sub) => {
            lemma_plain_production_is_kept(*sub, state);
        },
        Ebnf::Alternative(children) => {
            lemma_plain_children_are_kept(children, children.len(), state);
            assert(as_plain(el)->Alternative_0 =~= Seq::new(
                children.len(),
                |i: int| as_plain(children[i]),
            ));
        },
        Ebnf::Sequence(children) => {
            lemma_plain_children_are_kept(children, children.len(), state);
            assert(as_plain(el)->Sequence_0 =~= Seq::new(
                children.len(),
                |i: int| as_plain(children[i]),
            ));
        },
        _ => {},
    }
}

/// Rewriting productions without repetition one after the other gives their
/// plain productions in the same order, mints nothing and leaves the state
/// of the pass as it was.
pub proof fn lemma_plain_children_are_kept(children: Seq<Ebnf>, count: nat, state: PassState)
    requires
        count <= children.len(),
        forall|i: int| 0 <= i < children.len() ==> is_plain(#[trigger] children[i]),
    ensures
        converted_children(children, count, state) == Some(
            (
                Conversions {
                    output_elements: Seq::new(count, |i: int| as_plain(children[i])),
                    new_variables: Seq::empty(),
                    new_replacers: Seq::empty(),
                    new_rules: Seq::empty(),
                },
                state,
            ),
        ),
    decreases children, count,
{
    let expected = Conversions {
        output_elements: Seq::new(count, |i: int| as_plain(children[i])),
        new_variables: Seq::empty(),
        new_replacers: Seq::empty(),
        new_rules: Seq::empty(),
    };
    if count == 0 {
        assert(expected.output_elements =~= Seq::empty());
    } else {
        lemma_plain_children_are_kept(children, (count - 1) as nat, state);
        lemma_plain_production_is_kept(children[count - 1], state);
        let earlier = converted_children(children, (count - 1) as nat, state).unwrap().0;
        let next = Conversion::simple(as_plain(children[count - 1]));
        assert(earlier.followed_by(next).output_elements =~= expected.output_elements);
        assert(earlier.followed_by(next).new_variables =~= expected.new_variables);
        assert(earlier.followed_by(next).new_replacers =~= expected.new_replacers);
        assert(earlier.followed_by(next).new_rules =~= expected.new_rules);
    }
}

/// A production that is repeated one or more times is rewritten as the
/// sequence of the production and its repetition zero or more times: the
/// two give the same plain production, the same variables and rules, and
/// leave the pass in the same state.
pub proof fn lemma_one_or_more_is_one_then_zero_or_more(sub: Ebnf, state: PassState)
    ensures
        converted(Ebnf::RepetitionOne(Box::new(sub)), state) == converted(
            Ebnf::Sequence(seq![sub, Ebnf::RepetitionZero(Box::new(sub))]),
            state,
        ),
{
    let children = seq![sub, Ebnf::RepetitionZero(Box::new(sub))];
    assert(converted_children(children, 0, state) == Some((Conversions::empty(), state)));
    assert(children[0] == sub);
    assert(children[1] == Ebnf::RepetitionZero(Box::new(sub)));
    match converted(sub, state) {
        Some((first, middle)) => {
            assert(converted_children(children, 1, state) == Some(
                (Conversions::empty().followed_by(first), middle),
            ));
            assert(converted(children[1], middle) == converted_repetition(sub, middle));
            match converted_repetition(sub, middle) {
                Some((rest, after)) => {
                    assert(converted_children(children, 2, state) == Some(
                        (Conversions::empty().followed_by(first).followed_by(rest), after),
                    ));
                },
                None => {
                    assert(converted_children(children, 2, state) is None);
                },
            }
        },
        None => {
            assert(converted_children(children, 1, state) is None);
            assert(converted_children(children, 2, state) is None);
        },
    }
}

/// A repetition that has a variable is replaced by that variable, and
/// nothing is minted for it again.
pub proof fn lemma_known_repetition_is_reused(sub: Ebnf, state: PassState)
    requires
        state.replacers.contains_key(Ebnf::RepetitionZero(Box::new(sub))),
    ensures
        converted(Ebnf::RepetitionZero(Box::new(sub)), state) == Some(
            (
                Conversion::simple(
                    Bnf::Variable(state.replacers[Ebnf::RepetitionZero(Box::new(sub))]),
                ),
                state,
            ),
        ),
{
}

/// Once a repetition has been rewritten, rewriting it again in the state
/// that the first rewriting left, or in any state that came from it, gives
/// the same variable and mints nothing.
pub proof fn lemma_repetition_is_remembered(sub: Ebnf, state: PassState, later: PassState)
    requires
        converted(Ebnf::RepetitionZero(Box::new(sub)), state) is Some,
        later.extends(converted(Ebnf::RepetitionZero(Box::new(sub)), state).unwrap().1),
    ensures
        converted(Ebnf::RepetitionZero(Box::new(sub)), later) == Some(
            (
                Conversion::simple(
                    converted(
                        Ebnf::RepetitionZero(Box::new(sub)),
                        state,
                    ).unwrap().0.output_element,
                ),
                later,
            ),
        ),
{
    let key = Ebnf::RepetitionZero(Box::new(sub));
    let after = converted(key, state).unwrap().1;
    assert(after.replacers.dom().contains(key));
    assert(later.replacers.dom().contains(key));
}

/// Whether rewriting `el` comes upon the zero-or-more repetition `key`:
/// `key` is `el` itself, or stands in `el` outside every repetition, or is
/// the repetition that a one-or-more repetition there is rewritten with.
/// What stands inside a repetition is rewritten with the rule of its
/// variable, not with `el`.
pub open spec fn meets(el: Ebnf, key: Ebnf) -> bool
    decreases el,
{
    match el {
        Ebnf::Epsilon => false,
        Ebnf::Terminal(_) => false,
        Ebnf::Variable(_) => false,
        Ebnf::Optional(sub) => meets(*sub, key),
        Ebnf::RepetitionZero(_) => key == el,
        Ebnf::RepetitionOne(sub) => meets(*sub, key) || key == Ebnf::RepetitionZero(sub),
        Ebnf::Alternative(children) => exists|i: int|
            0 <= i < children.len() && meets(#[trigger] children[i], key),
        Ebnf::Sequence(children) => exists|i: int|
            0 <= i < children.len() && meets(#[trigger] children[i], key),
    }
}

/// The repetitions that rewriting `el` comes upon.
pub open spec fn repetitions_of(el: Ebnf) -> Set<Ebnf> {
    Set::new(|key: Ebnf| meets(el, key))
}

/// The repetitions that rewriting the first `count` of `children` comes
/// upon.
pub open spec fn repetitions_among(children: Seq<Ebnf>, count: nat) -> Set<Ebnf> {
    Set::new(
        |key: Ebnf|
            exists|i: int|
                0 <= i < count && i < children.len() && meets(#[trigger] children[i], key),
    )
}

/// Whether the variables, replacers and rules that a rewriting handed back
/// are what is owed for the repetitions `met`, between the states `before`
/// and `after` of the pass:
///
/// - each repetition of `met` that had no variable got one, and nothing
///   else did: the replacers list exactly those repetitions, each once;
/// - entry by entry, the three lists speak of the same variable, and the
///   rule is the one that defines it for the repetition of the replacer;
/// - the variables are fresh: none was in use before, none is handed out
///   twice, and their code points ascend;
/// - the pass now knows the new variables as in use and the new replacers,
///   and has forgotten nothing.
pub open spec fn accounts_for(
    new_variables: Seq<char>,
    new_replacers: Seq<(Ebnf, Variable)>,
    new_rules: Seq<(Variable, Ebnf)>,
    met: Set<Ebnf>,
    before: PassState,
    after: PassState,
) -> bool {
    &&& new_replacers.len() == new_variables.len()
    &&& new_rules.len() == new_variables.len()
    &&& forall|i: int|
        #![trigger new_variables[i]]
        #![trigger new_replacers[i]]
        #![trigger new_rules[i]]
        0 <= i < new_variables.len() ==> {
            &&& new_replacers[i].1 == Variable(new_variables[i])
            &&& new_replacers[i].0 is RepetitionZero
            &&& new_rules[i] == (
                Variable(new_variables[i]),
                repetition_rule(
                    *new_replacers[i].0->RepetitionZero_0,
                    Variable(new_variables[i]),
                ),
            )
            &&& !before.allocator.in_use.contains(new_variables[i])
            &&& before.allocator.next <= (new_variables[i] as u32) < after.allocator.next
            &&& met.contains(new_replacers[i].0)
            &&& !before.replacers.contains_key(new_replacers[i].0)
            &&& after.replacers.contains_key(new_replacers[i].0)
            &&& after.replacers[new_replacers[i].0] == new_replacers[i].1
        }
    &&& forall|i: int, j: int|
        #![trigger new_variables[i], new_variables[j]]
        0 <= i < j < new_variables.len() ==> (new_variables[i] as u32) < (new_variables[j] as u32)
    &&& forall|i: int, j: int|
        #![trigger new_replacers[i], new_replacers[j]]
        0 <= i < j < new_replacers.len() ==> new_replacers[i].0 != new_replacers[j].0
    &&& forall|key: Ebnf|
        #![trigger met.contains(key)]
        met.contains(key) && !before.replacers.contains_key(key) ==> exists|i: int|
            0 <= i < new_replacers.len() && (#[trigger] new_replacers[i]).0 == key
    &&& after.allocator.in_use == before.allocator.in_use.union(new_variables.to_set())
    &&& after.replacers.dom() == before.replacers.dom().union(met)
    &&& after.extends(before)
}

/// What two rewritings handed back, one after the other, is what is owed for
/// the repetitions of both.
proof fn lemma_accounts_add_up(
    front_variables: Seq<char>,
    front_replacers: Seq<(Ebnf, Variable)>,
    front_rules: Seq<(Variable, Ebnf)>,
    front_met: Set<Ebnf>,
    back_variables: Seq<char>,
    back_replacers: Seq<(Ebnf, Variable)>,
    back_rules: Seq<(Variable, Ebnf)>,
    back_met: Set<Ebnf>,
    before: PassState,
    middle: PassState,
    after: PassState,
)
    requires
        accounts_for(front_variables, front_replacers, front_rules, front_met, before, middle),
        accounts_for(back_variables, back_replacers, back_rules, back_met, middle, after),
    ensures
        accounts_for(
            front_variables + back_variables,
            front_replacers + back_replacers,
            front_rules + back_rules,
            front_met.union(back_met),
            before,
            after,
        ),
{
    let variables = front_variables + back_variables;
    let replacers = front_replacers + back_replacers;
    let rules = front_rules + back_rules;
    let met = front_met.union(back_met);
    let front = front_variables.len() as int;
    assert forall|i: int|
        #![trigger variables[i]]
        #![trigger replacers[i]]
        #![trigger rules[i]]
        0 <= i < variables.len() implies {
        &&& replacers[i].1 == Variable(variables[i])
        &&& replacers[i].0 is RepetitionZero
        &&& rules[i] == (
            Variable(variables[i]),
            repetition_rule(*replacers[i].0->RepetitionZero_0, Variable(variables[i])),
        )
        &&& !before.allocator.in_use.contains(variables[i])
        &&& before.allocator.next <= (variables[i] as u32) < after.allocator.next
        &&& met.contains(replacers[i].0)
        &&& !before.replacers.contains_key(replacers[i].0)
        &&& after.replacers.contains_key(replacers[i].0)
        &&& after.replacers[replacers[i].0] == replacers[i].1
    } by {
        if i < front {
            assert(variables[i] == front_variables[i]);
            assert(replacers[i] == front_replacers[i]);
            assert(rules[i] == front_rules[i]);
            assert(middle.replacers.dom().contains(replacers[i].0));
        } else {
            assert(variables[i] == back_variables[i - front]);
            assert(replacers[i] == back_replacers[i - front]);
            assert(rules[i] == back_rules[i - front]);
            if before.replacers.contains_key(replacers[i].0) {
                assert(before.replacers.dom().contains(replacers[i].0));
                assert(middle.replacers.dom().contains(replacers[i].0));
            }
        }
    }
    assert forall|i: int, j: int|
        #![trigger variables[i], variables[j]]
        0 <= i < j < variables.len() implies (variables[i] as u32) < (variables[j] as u32) by {
        if j < front {
            assert(variables[i] == front_variables[i]);
            assert(variables[j] == front_variables[j]);
        } else if i < front {
            assert(variables[i] == front_variables[i]);
            assert(variables[j] == back_variables[j - front]);
        } else {
            assert(variables[i] == back_variables[i - front]);
            assert(variables[j] == back_variables[j - front]);
        }
    }
    assert forall|i: int, j: int|
        #![trigger replacers[i], replacers[j]]
        0 <= i < j < replacers.len() implies replacers[i].0 != replacers[j].0 by {
        if j < front {
            assert(replacers[i] == front_replacers[i]);
            assert(replacers[j] == front_replacers[j]);
        } else if i < front {
            assert(replacers[i] == front_replacers[i]);
            assert(replacers[j] == back_replacers[j - front]);
            assert(front_variables[i] == front_variables[i]);
            assert(back_variables[j - front] == back_variables[j - front]);
            assert(middle.replacers.contains_key(front_replacers[i].0));
            assert(!middle.replacers.contains_key(back_replacers[j - front].0));
        } else {
            assert(replacers[i] == back_replacers[i - front]);
            assert(replacers[j] == back_replacers[j - front]);
        }
    }
    assert forall|key: Ebnf|
        #![trigger met.contains(key)]
        met.contains(key) && !before.replacers.contains_key(key) implies exists|i: int|
        0 <= i < replacers.len() && (#[trigger] replacers[i]).0 == key by {
        if front_met.contains(key) {
            let i = choose|i: int|
                0 <= i < front_replacers.len() && (#[trigger] front_replacers[i]).0 == key;
            assert(replacers[i].0 == key);
        } else {
            assert(back_met.contains(key));
            assert(!middle.replacers.dom().contains(key));
            let i = choose|i: int|
                0 <= i < back_replacers.len() && (#[trigger] back_replacers[i]).0 == key;
            assert(replacers[front + i].0 == key);
        }
    }
    assert(after.allocator.in_use =~= before.allocator.in_use.union(variables.to_set())) by {
        assert forall|symbol: char|
            variables.to_set().contains(symbol) <==> front_variables.to_set().contains(symbol)
                || back_variables.to_set().contains(symbol) by {
            if front_variables.contains(symbol) {
                let i = choose|i: int|
                    0 <= i < front_variables.len() && front_variables[i] == symbol;
                assert(variables[i] == symbol);
            }
            if back_variables.contains(symbol) {
                let i = choose|i: int|
                    0 <= i < back_variables.len() && back_variables[i] == symbol;
                assert(variables[front + i] == symbol);
            }
            if variables.contains(symbol) {
                let i = choose|i: int| 0 <= i < variables.len() && variables[i] == symbol;
                if i < front {
                    assert(front_variables[i] == symbol);
                } else {
                    assert(back_variables[i - front] == symbol);
                }
            }
        }
    }
    assert(after.replacers.dom() =~= before.replacers.dom().union(met));
    assert(after.extends(before)) by {
        assert forall|key: Ebnf| #[trigger]
            before.replacers.dom().contains(key) implies after.replacers.dom().contains(key)
            && before.replacers[key] == after.replacers[key] by {
            assert(middle.replacers.dom().contains(key));
        }
    }
}

/// What the rewriting of a repetition hands back is what is owed for it: a
/// fresh variable with its replacer and rule where it had none, and nothing
/// where it had one.
pub proof fn lemma_repetition_accounts(sub: Ebnf, state: PassState)
    requires
        converted_repetition(sub, state) is Some,
    ensures
        ({
            let (conversion, after) = converted_repetition(sub, state).unwrap();
            accounts_for(
                conversion.new_variables,
                conversion.new_replacers,
                conversion.new_rules,
                set![Ebnf::RepetitionZero(Box::new(sub))],
                state,
                after,
            )
        }),
{
    let key = Ebnf::RepetitionZero(Box::new(sub));
    let (conversion, after) = converted_repetition(sub, state).unwrap();
    let met = set![key];
    if state.replacers.contains_key(key) {
        assert(after.allocator.in_use =~= state.allocator.in_use.union(
            conversion.new_variables.to_set(),
        ));
        assert(after.replacers.dom() =~= state.replacers.dom().union(met));
    } else {
        state.allocator.lemma_fresh_is_least_offer();
        let fresh = state.allocator.fresh();
        assert(conversion.new_variables[0] == fresh);
        assert(conversion.new_replacers[0] == (key, Variable(fresh)));
        assert(conversion.new_variables.to_set() =~= set![fresh]);
        assert(after.allocator.in_use =~= state.allocator.in_use.union(
            conversion.new_variables.to_set(),
        ));
        assert(after.replacers.dom() =~= state.replacers.dom().union(met));
        assert forall|k: Ebnf|
            #![trigger met.contains(k)]
            met.contains(k) && !state.replacers.contains_key(k) implies exists|i: int|
            0 <= i < conversion.new_replacers.len() && (#[trigger] conversion.new_replacers[i]).0
                == k by {
            assert(conversion.new_replacers[0].0 == k);
        }
    }
}

/// What the rewriting of a production hands back is what is owed for the
/// repetitions that it comes upon: one fresh variable, with its replacer and
/// its rule, for each of them that had no variable, however often it
/// occurs, and nothing else.
pub proof fn lemma_conversion_accounts(el: Ebnf, state: PassState)
    requires
        converted(el, state) is Some,
    ensures
        ({
            let (conversion, after) = converted(el, state).unwrap();
            accounts_for(
                conversion.new_variables,
                conversion.new_replacers,
                conversion.new_rules,
                repetitions_of(el),
                state,
                after,
            )
        }),
    decreases el, 0nat,
{
    let (conversion, after) = converted(el, state).unwrap();
    match el {
        Ebnf::Epsilon => {
            lemma_nothing_accounts_for_nothing(repetitions_of(el), state);
        },
        Ebnf::Terminal(_) => {
            lemma_nothing_accounts_for_nothing(repetitions_of(el), state);
        },
        Ebnf::Variable(_) => {
            lemma_nothing_accounts_for_nothing(repetitions_of(el), state);
        },
        Ebnf::Optional(sub) => {
            lemma_conversion_accounts(*sub, state);
            assert(repetitions_of(el) =~= repetitions_of(*sub));
        },
        Ebnf::Alternative(children) => {
            lemma_children_account(children, children.len(), state);
            assert(repetitions_of(el) =~= repetitions_among(children, children.len()));
        },
        Ebnf::Sequence(children) => {
            lemma_children_account(children, children.len(), state);
            assert(repetitions_of(el) =~= repetitions_among(children, children.len()));
        },
        Ebnf::RepetitionZero(sub) => {
            lemma_repetition_accounts(*sub, state);
            assert(repetitions_of(el) =~= set![Ebnf::RepetitionZero(Box::new(*sub))]);
        },
        Ebnf::RepetitionOne(sub) => {
            let (first, middle) = converted(*sub, state).unwrap();
            let (rest, last) = converted_repetition(*sub, middle).unwrap();
            lemma_conversion_accounts(*sub, state);
            lemma_repetition_accounts(*sub, middle);
            lemma_accounts_add_up(
                first.new_variables,
                first.new_replacers,
                first.new_rules,
                repetitions_of(*sub),
                rest.new_variables,
                rest.new_replacers,
                rest.new_rules,
                set![Ebnf::RepetitionZero(Box::new(*sub))],
                state,
                middle,
                last,
            );
            assert(repetitions_of(el) =~= repetitions_of(*sub).union(
                set![Ebnf::RepetitionZero(Box::new(*sub))],
            ));
            assert(conversion.new_variables =~= first.new_variables + rest.new_variables);
            assert(conversion.new_replacers =~= first.new_replacers + rest.new_replacers);
            assert(conversion.new_rules =~= first.new_rules + rest.new_rules);
        },
    }
}

/// Where no repetition is come upon, nothing is owed.
proof fn lemma_nothing_accounts_for_nothing(met: Set<Ebnf>, state: PassState)
    requires
        met =~= Set::<Ebnf>::empty(),
    ensures
        accounts_for(Seq::empty(), Seq::empty(), Seq::empty(), met, state, state),
{
    assert(state.allocator.in_use =~= state.allocator.in_use.union(Seq::<char>::empty().to_set()));
    assert(state.replacers.dom() =~= state.replacers.dom().union(met));
}

/// What the rewriting of a list of productions hands back is what is owed
/// for the repetitions that it comes upon in any of them.
pub proof fn lemma_children_account(children: Seq<Ebnf>, count: nat, state: PassState)
    requires
        count <= children.len(),
        converted_children(children, count, state) is Some,
    ensures
        ({
            let (conversions, after) = converted_children(children, count, state).unwrap();
            accounts_for(
                conversions.new_variables,
                conversions.new_replacers,
                conversions.new_rules,
                repetitions_among(children, count),
                state,
                after,
            )
        }),
    decreases children, count,
{
    if count == 0 {
        lemma_nothing_accounts_for_nothing(repetitions_among(children, 0), state);
    } else {
        let (earlier, middle) = converted_children(children, (count - 1) as nat, state).unwrap();
        let (next, after) = converted(children[count - 1], middle).unwrap();
        lemma_children_account(children, (count - 1) as nat, state);
        lemma_conversion_accounts(children[count - 1], middle);
        lemma_accounts_add_up(
            earlier.new_variables,
            earlier.new_replacers,
            earlier.new_rules,
            repetitions_among(children, (count - 1) as nat),
            next.new_variables,
            next.new_replacers,
            next.new_rules,
            repetitions_of(children[count - 1]),
            state,
            middle,
            after,
        );
        assert(repetitions_among(children, count) =~= repetitions_among(
            children,
            (count - 1) as nat,
        ).union(repetitions_of(children[count - 1])));
    }
}

/// The repetitions that a list of replacers speaks of, in its order.
pub open spec fn replaced(new_replacers: Seq<(Ebnf, Variable)>) -> Seq<Ebnf> {
    Seq::new(new_replacers.len(), |i: int| new_replacers[i].0)
}

/// Rewriting mints exactly one variable for each repetition that it comes
/// upon and that had none: the replacers list those repetitions, each once,
/// and there are as many new variables, all different and none in use
/// before, as there are such repetitions.
pub proof fn lemma_one_variable_for_each_new_repetition(el: Ebnf, state: PassState)
    requires
        converted(el, state) is Some,
    ensures
        ({
            let conversion = converted(el, state).unwrap().0;
            let unknown = repetitions_of(el).difference(state.replacers.dom());
            &&& replaced(conversion.new_replacers).no_duplicates()
            &&& replaced(conversion.new_replacers).to_set() == unknown
            &&& conversion.new_variables.no_duplicates()
            &&& conversion.new_variables.to_set().disjoint(state.allocator.in_use)
            &&& conversion.new_variables.len() == unknown.len()
            &&& conversion.new_rules.len() == unknown.len()
        }),
{
    let (conversion, after) = converted(el, state).unwrap();
    let unknown = repetitions_of(el).difference(state.replacers.dom());
    let keys = replaced(conversion.new_replacers);
    let variables = conversion.new_variables;
    lemma_conversion_accounts(el, state);
    assert(keys.no_duplicates()) by {
        assert forall|i: int, j: int| 0 <= i < keys.len() && 0 <= j < keys.len() && i != j implies keys[i]
            != keys[j] by {
            if i < j {
                assert(conversion.new_replacers[i].0 != conversion.new_replacers[j].0);
            } else {
                assert(conversion.new_replacers[j].0 != conversion.new_replacers[i].0);
            }
        }
    }
    assert(keys.to_set() =~= unknown) by {
        assert forall|key: Ebnf| keys.to_set().contains(key) <==> unknown.contains(key) by {
            if keys.contains(key) {
                let i = choose|i: int| 0 <= i < keys.len() && keys[i] == key;
                assert(conversion.new_replacers[i].0 == key);
                assert(variables[i] == variables[i]);
            }
            if unknown.contains(key) {
                assert(repetitions_of(el).contains(key));
                let i = choose|i: int|
                    0 <= i < conversion.new_replacers.len() && (
                    #[trigger] conversion.new_replacers[i]).0 == key;
                assert(keys[i] == key);
            }
        }
    }
    assert(variables.no_duplicates()) by {
        assert forall|i: int, j: int|
            0 <= i < variables.len() && 0 <= j < variables.len() && i != j implies variables[i]
            != variables[j] by {
            if i < j {
                assert((variables[i] as u32) < (variables[j] as u32));
            } else {
                assert((variables[j] as u32) < (variables[i] as u32));
            }
        }
    }
    assert(variables.to_set().disjoint(state.allocator.in_use)) by {
        assert forall|symbol: char|
            !(variables.to_set().contains(symbol) && state.allocator.in_use.contains(symbol)) by {
            if variables.contains(symbol) {
                let i = choose|i: int| 0 <= i < variables.len() && variables[i] == symbol;
                assert(!state.allocator.in_use.contains(variables[i]));
            }
        }
    }
    keys.unique_seq_to_set();
}

} // verus!
