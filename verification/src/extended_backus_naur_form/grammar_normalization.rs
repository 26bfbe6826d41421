//! Rewriting a whole set of rules: every rule, and every rule that the
//! rewriting adds, until none of them holds a repetition.

use crate::backus_naur_form::{BackusNaurProduction, Bnf};
use crate::extended_backus_naur_form::ebnf_element::{Ebnf, ExtendedBackusNaurProduction};
use crate::extended_backus_naur_form::element_conversion_result::{
    rule_models,
    ElementConversionResult,
};
use crate::extended_backus_naur_form::normalization_pass::{NormalizationPass, PassState};
use crate::extended_backus_naur_form::rewritten_grammar::{
    has_one_rule_for_each_variable,
    keeps_the_language,
    lemma_normalized_rules_keep_the_language,
};
use crate::extended_backus_naur_form::variable_allocator::ConversionError;
use crate::extended_backus_naur_form::{
    convert_element,
    converted,
    converted_children,
    converted_repetition,
    lemma_extends_transitive,
    repetition_rule,
    state_left,
};
use crate::model::Variable;
use vstd::prelude::*;

verus! {

/// A bound on the work that the repetitions of `el` cause: one rule for each
/// zero-or-more repetition outside every other, and the work of its
/// operand once that rule is rewritten; the operand of a one-or-more
/// repetition counts twice, for it is rewritten where it stands and again in
/// the rule.
pub open spec fn weight(el: Ebnf) -> nat
    decreases el, 0nat,
{
    match el {
        Ebnf::Epsilon => 0,
        Ebnf::Terminal(_) => 0,
        Ebnf::Variable(_) => 0,
        Ebnf::Optional(sub) => weight(*sub),
        Ebnf::RepetitionZero(sub) => 1 + weight(*sub),
        Ebnf::RepetitionOne(sub) => 1 + 2 * weight(*sub),
        Ebnf::Alternative(children) => weight_among(children, children.len()),
        Ebnf::Sequence(children) => weight_among(children, children.len()),
    }
}

/// The weights of the first `count` of `children`, added up.
pub open spec fn weight_among(children: Seq<Ebnf>, count: nat) -> nat
    decreases children, count,
{
    if count == 0 || count > children.len() {
        0
    } else {
        weight_among(children, (count - 1) as nat) + weight(children[count - 1])
    }
}

/// A bound on the work that is left with the rules `pending`: one step for
/// each rule, and the weight of its right-hand side.
pub open spec fn pending_weight(pending: Seq<(Variable, Ebnf)>) -> nat
    decreases pending.len(),
{
    if pending.len() == 0 {
        0
    } else {
        pending_weight(pending.drop_last()) + 1 + weight(pending.last().1)
    }
}

/// The work left with two lists of rules is the work left with each.
pub proof fn lemma_pending_weight_adds(front: Seq<(Variable, Ebnf)>, back: Seq<(Variable, Ebnf)>)
    ensures
        pending_weight(front + back) == pending_weight(front) + pending_weight(back),
    decreases back.len(),
{
    if back.len() == 0 {
        assert(front + back =~= front);
    } else {
        lemma_pending_weight_adds(front, back.drop_last());
        assert((front + back).drop_last() =~= front + back.drop_last());
        assert((front + back).last() == back.last());
    }
}

/// The rule of a repetition weighs what the repeated production weighs.
proof fn lemma_weight_of_repetition_rule(sub: Ebnf, variable: Variable)
    ensures
        weight(repetition_rule(sub, variable)) == weight(sub),
{
    let round = seq![sub, Ebnf::Variable(variable)];
    let choices = seq![Ebnf::Epsilon, Ebnf::Sequence(round)];
    assert(weight_among(round, 0) == 0);
    assert(round[0] == sub);
    assert(weight_among(round, 1) == weight(sub));
    assert(round[1] == Ebnf::Variable(variable));
    assert(weight(round[1]) == 0);
    assert(weight_among(round, 2) == weight(sub));
    assert(weight(Ebnf::Sequence(round)) == weight(sub));
    assert(weight_among(choices, 0) == 0);
    assert(choices[0] == Ebnf::Epsilon);
    assert(weight(choices[0]) == 0);
    assert(weight_among(choices, 1) == 0);
    assert(choices[1] == Ebnf::Sequence(round));
    assert(weight_among(choices, 2) == weight(sub));
}

/// The rule that rewriting a repetition adds, if any, leaves no more work
/// than the repetition weighs.
proof fn lemma_repetition_rule_is_lighter(sub: Ebnf, state: PassState)
    requires
        converted_repetition(sub, state) is Some,
    ensures
        pending_weight(converted_repetition(sub, state).unwrap().0.new_rules) <= 1 + weight(sub),
{
    let rules = converted_repetition(sub, state).unwrap().0.new_rules;
    if rules.len() > 0 {
        let variable = rules[0].0;
        lemma_weight_of_repetition_rule(sub, variable);
        assert(rules.drop_last() =~= Seq::<(Variable, Ebnf)>::empty());
        assert(pending_weight(rules.drop_last()) == 0);
        assert(rules.last() == (variable, repetition_rule(sub, variable)));
    }
}

/// The rules that rewriting a production adds leave no more work than the
/// production weighs.
pub proof fn lemma_new_rules_are_lighter(el: Ebnf, state: PassState)
    requires
        converted(el, state) is Some,
    ensures
        pending_weight(converted(el, state).unwrap().0.new_rules) <= weight(el),
    decreases el, 0nat,
{
    match el {
        Ebnf::Optional(sub) => {
            lemma_new_rules_are_lighter(*sub, state);
        },
        Ebnf::Alternative(children) => {
            lemma_new_rules_of_children_are_lighter(children, children.len(), state);
        },
        Ebnf::Sequence(children) => {
            lemma_new_rules_of_children_are_lighter(children, children.len(), state);
        },
        Ebnf::RepetitionZero(sub) => {
            lemma_repetition_rule_is_lighter(*sub, state);
        },
        Ebnf::RepetitionOne(sub) => {
            let (first, middle) = converted(*sub, state).unwrap();
            let (rest, last) = converted_repetition(*sub, middle).unwrap();
            lemma_new_rules_are_lighter(*sub, state);
            lemma_repetition_rule_is_lighter(*sub, middle);
            lemma_pending_weight_adds(first.new_rules, rest.new_rules);
            assert(converted(el, state).unwrap().0.new_rules =~= first.new_rules + rest.new_rules);
        },
        _ => {},
    }
}

/// The rules that rewriting a list of productions adds leave no more work
/// than the productions weigh together.
pub proof fn lemma_new_rules_of_children_are_lighter(
    children: Seq<Ebnf>,
    count: nat,
    state: PassState,
)
    requires
        count <= children.len(),
        converted_children(children, count, state) is Some,
    ensures
        pending_weight(converted_children(children, count, state).unwrap().0.new_rules)
            <= weight_among(children, count),
    decreases children, count,
{
    if count > 0 {
        let (earlier, middle) = converted_children(children, (count - 1) as nat, state).unwrap();
        let (next, after) = converted(children[count - 1], middle).unwrap();
        lemma_new_rules_of_children_are_lighter(children, (count - 1) as nat, state);
        lemma_new_rules_are_lighter(children[count - 1], middle);
        lemma_pending_weight_adds(earlier.new_rules, next.new_rules);
    }
}

/// The rules without repetition that rewriting the rules `pending` gives,
/// from `state` on: the first rule is rewritten, the rules that this adds
/// are put behind the others, and so on until no rule is left. Each rule
/// keeps its variable. `None` where a variable is needed and none is left.
pub open spec fn normalized(pending: Seq<(Variable, Ebnf)>, state: PassState) -> Option<
    Seq<(Variable, Bnf)>,
>
    decreases pending_weight(pending),
    via normalized_decreases
{
    if pending.len() == 0 {
        Some(Seq::empty())
    } else {
        match converted(pending[0].1, state) {
            Some((conversion, after)) => match normalized(
                pending.drop_first() + conversion.new_rules,
                after,
            ) {
                Some(rest) => Some(seq![(pending[0].0, conversion.output_element)] + rest),
                None => None,
            },
            None => None,
        }
    }
}

#[via_fn]
proof fn normalized_decreases(pending: Seq<(Variable, Ebnf)>, state: PassState) {
    if pending.len() > 0 {
        if converted(pending[0].1, state) is Some {
            lemma_step_lightens(pending, state);
        }
    }
}

/// The state in which rewriting the rules `pending` from `state` on leaves
/// the pass: the state behind the last rule where it succeeds, and the one
/// that the rule for which no variable was left has led to where it fails.
pub open spec fn state_after(pending: Seq<(Variable, Ebnf)>, state: PassState) -> PassState
    decreases pending_weight(pending),
    via state_after_decreases
{
    if pending.len() == 0 {
        state
    } else {
        match converted(pending[0].1, state) {
            Some((conversion, after)) => state_after(
                pending.drop_first() + conversion.new_rules,
                after,
            ),
            None => state_left(pending[0].1, state),
        }
    }
}

#[via_fn]
proof fn state_after_decreases(pending: Seq<(Variable, Ebnf)>, state: PassState) {
    if pending.len() > 0 {
        if converted(pending[0].1, state) is Some {
            lemma_step_lightens(pending, state);
        }
    }
}

/// Rewriting the first of the pending rules leaves less work than before.
pub proof fn lemma_step_lightens(pending: Seq<(Variable, Ebnf)>, state: PassState)
    requires
        pending.len() > 0,
        converted(pending[0].1, state) is Some,
    ensures
        pending_weight(pending.drop_first() + converted(pending[0].1, state).unwrap().0.new_rules)
            < pending_weight(pending),
{
    let new_rules = converted(pending[0].1, state).unwrap().0.new_rules;
    let head = seq![pending[0]];
    lemma_new_rules_are_lighter(pending[0].1, state);
    lemma_pending_weight_adds(pending.drop_first(), new_rules);
    lemma_pending_weight_adds(head, pending.drop_first());
    assert(head + pending.drop_first() =~= pending);
    assert(head.drop_last() =~= Seq::<(Variable, Ebnf)>::empty());
    assert(pending_weight(head.drop_last()) == 0);
    assert(head.last() == pending[0]);
    assert(pending_weight(head) == 1 + weight(pending[0].1));
}

/// Rewriting a set of rules gives a rule for each of them, in their order
/// and under their variables, before the rules of the variables that were
/// minted.
pub proof fn lemma_rules_keep_their_variables(pending: Seq<(Variable, Ebnf)>, state: PassState)
    requires
        normalized(pending, state) is Some,
    ensures
        normalized(pending, state).unwrap().len() >= pending.len(),
        forall|i: int|
            0 <= i < pending.len() ==> (#[trigger] normalized(pending, state).unwrap()[i]).0
                == pending[i].0,
    decreases pending_weight(pending),
{
    if pending.len() > 0 {
        let (conversion, after) = converted(pending[0].1, state).unwrap();
        let next = pending.drop_first() + conversion.new_rules;
        lemma_step_lightens(pending, state);
        lemma_rules_keep_their_variables(next, after);
        let rest = normalized(next, after).unwrap();
        let plain = normalized(pending, state).unwrap();
        assert(plain =~= seq![(pending[0].0, conversion.output_element)] + rest);
        assert forall|i: int| 0 <= i < pending.len() implies (#[trigger] plain[i]).0
            == pending[i].0 by {
            if i > 0 {
                assert(plain[i] == rest[i - 1]);
                assert(next[i - 1] == pending[i]);
            }
        }
    }
}

/// The trees of a list of plain rules, each with its variable, in order.
pub open spec fn plain_rule_models(rules: Seq<(Variable, BackusNaurProduction)>) -> Seq<
    (Variable, Bnf),
> {
    Seq::new(rules.len(), |i: int| (rules[i].0, rules[i].1@))
}

/// The symbols of the variables of the rules `rules`: those that have a
/// rule and those that occur in a right-hand side.
pub open spec fn rule_variables(rules: Seq<(Variable, Ebnf)>) -> Set<char> {
    Set::new(
        |symbol: char|
            exists|i: int|
                0 <= i < rules.len() && ((#[trigger] rules[i]).0.0 == symbol
                    || rules[i].1.mentions(symbol)),
    )
}

/// The rules `done` followed by the rules `rest`, where there are any.
pub open spec fn followed_by(done: Seq<(Variable, Bnf)>, rest: Option<Seq<(Variable, Bnf)>>) -> Option<
    Seq<(Variable, Bnf)>,
> {
    match rest {
        Some(rest) => Some(done + rest),
        None => None,
    }
}

/// Rewrites the rules `rules` within `pass`, and every rule that this
/// adds, until none is left. The result holds one rule without repetition
/// for each rule of `rules`, in their order and under their variables,
/// and behind them one for each variable that was minted, in the order in
/// which their rules were added.
///
/// The call fails exactly where a fresh variable is needed and none is left.
pub fn normalize_pending(
    rules: Vec<(Variable, ExtendedBackusNaurProduction)>,
    pass: &mut NormalizationPass,
) -> (result:
    Result<Vec<(Variable, BackusNaurProduction)>, ConversionError>)
    ensures
        match result {
            Ok(plain) => normalized(rule_models(rules@), old(pass)@) == Some(
                plain_rule_models(plain@),
            ),
            Err(error) => {
                &&& normalized(rule_models(rules@), old(pass)@) is None
                &&& error == ConversionError::IdentifiersExhausted
            },
        },
        final(pass)@ == state_after(rule_models(rules@), old(pass)@),
        final(pass)@.extends(old(pass)@),
{
    let ghost start = rule_models(rules@);
    let mut pending = rules;
    let mut plain: Vec<(Variable, BackusNaurProduction)> = Vec::new();
    let mut index: usize = 0;
    proof {
        assert(rule_models(pending@).subrange(0, pending@.len() as int) =~= start);
        match normalized(start, pass@) {
            Some(all) => {
                assert(plain_rule_models(plain@) + all =~= all);
            },
            None => {},
        }
    }
    while index < pending.len()
        invariant
            index <= pending@.len(),
            start == rule_models(rules@),
            pass@.extends(old(pass)@),
            normalized(start, old(pass)@) == followed_by(
                plain_rule_models(plain@),
                normalized(
                    rule_models(pending@).subrange(index as int, pending@.len() as int),
                    pass@,
                ),
            ),
            state_after(start, old(pass)@) == state_after(
                rule_models(pending@).subrange(index as int, pending@.len() as int),
                pass@,
            ),
        decreases
            pending_weight(rule_models(pending@).subrange(index as int, pending@.len() as int)),
    {
        let ghost rest = rule_models(pending@).subrange(index as int, pending@.len() as int);
        let ghost middle = pass@;
        let ghost done = plain_rule_models(plain@);
        let ghost before = pending@;
        assert(rest[0] == (pending@[index as int].0, pending@[index as int].1@));
        let step = convert_element(&pending[index].1, pass);
        proof {
            lemma_extends_transitive(pass@, middle, old(pass)@);
        }
        match step {
            Ok(conversion) => {
                let ghost value = conversion@;
                let ElementConversionResult {
                    output_element,
                    new_variables: _,
                    new_replacers: _,
                    mut new_rules,
                } = conversion;
                let variable = pending[index].0;
                plain.push((variable, output_element));
                pending.append(&mut new_rules);
                proof {
                    let now = rule_models(pending@).subrange(
                        index + 1,
                        pending@.len() as int,
                    );
                    assert(now =~= rest.drop_first() + value.new_rules);
                    lemma_step_lightens(rest, middle);
                    let head = seq![(variable, value.output_element)];
                    assert(plain_rule_models(plain@) =~= done + head);
                    match normalized(now, pass@) {
                        Some(tail) => {
                            assert((done + head) + tail =~= done + (head + tail));
                        },
                        None => {},
                    }
                }
            },
            Err(error) => {
                assert(normalized(rest, middle) is None);
                return Err(error);
            },
        }
        index += 1;
    }
    proof {
        assert(rule_models(pending@).subrange(index as int, pending@.len() as int) =~= Seq::<
            (Variable, Ebnf),
        >::empty());
        assert(plain_rule_models(plain@) + Seq::<(Variable, Bnf)>::empty() =~= plain_rule_models(
            plain@,
        ));
    }
    Ok(plain)
}

/// Rewrites the rules `rules` of a grammar, and every rule that this adds,
/// until none of them holds a repetition. The variables of `rules` count as
/// in use; fresh variables are the free symbols from `'A'` upward.
///
/// Where no variable has two rules, the rules that come out generate under
/// each variable of the grammar the words that the grammar generates under
/// it, and no others.
///
/// The call fails exactly where a fresh variable is needed and none is left.
pub fn normalize_rules(rules: &Vec<(Variable, ExtendedBackusNaurProduction)>) -> (result: Result<
    Vec<(Variable, BackusNaurProduction)>,
    ConversionError,
>)
    ensures
        match result {
            Ok(plain) => {
                &&& normalized(
                    rule_models(rules@),
                    PassState::starting(rule_variables(rule_models(rules@))),
                ) == Some(plain_rule_models(plain@))
                &&& has_one_rule_for_each_variable(rule_models(rules@)) ==> keeps_the_language(
                    rule_models(rules@),
                    plain_rule_models(plain@),
                )
            },
            Err(error) => {
                &&& normalized(
                    rule_models(rules@),
                    PassState::starting(rule_variables(rule_models(rules@))),
                ) is None
                &&& error == ConversionError::IdentifiersExhausted
            },
        },
{
    let ghost trees = rule_models(rules@);
    let mut in_use: Vec<char> = Vec::new();
    let mut pending: Vec<(Variable, ExtendedBackusNaurProduction)> = Vec::new();
    let mut index: usize = 0;
    assert(in_use@.to_set() =~= rule_variables(trees.subrange(0, 0)));
    assert(rule_models(pending@) =~= trees.subrange(0, 0));
    while index < rules.len()
        invariant
            index <= rules@.len(),
            trees == rule_models(rules@),
            in_use@.to_set() == rule_variables(trees.subrange(0, index as int)),
            rule_models(pending@) == trees.subrange(0, index as int),
        decreases rules@.len() - index,
    {
        let ghost before = in_use@;
        let variable = rules[index].0;
        in_use.push(variable.0);
        rules[index].1.collect_variables(&mut in_use);
        pending.push((variable, rules[index].1.clone()));
        proof {
            let earlier = trees.subrange(0, index as int);
            let now = trees.subrange(0, index + 1);
            let rule = trees[index as int];
            assert(rule == (variable, rules@[index as int].1@));
            assert(now =~= earlier.push(rule));
            assert(rule_models(pending@) =~= now);
            let added = seq![variable.0] + rule.1.occurrences();
            assert(in_use@ =~= before + added);
            vstd::seq_lib::seq_to_set_distributes_over_add(before, added);
            assert forall|symbol: char|
                rule_variables(now).contains(symbol) <==> rule_variables(earlier).contains(symbol)
                    || added.contains(symbol) by {
                if rule_variables(now).contains(symbol) {
                    let i = choose|i: int|
                        0 <= i < now.len() && ((#[trigger] now[i]).0.0 == symbol
                            || now[i].1.mentions(symbol));
                    if i < index {
                        assert(earlier[i] == now[i]);
                    } else if now[i].0.0 == symbol {
                        assert(added[0] == symbol);
                    } else {
                        let k = choose|k: int|
                            0 <= k < rule.1.occurrences().len() && rule.1.occurrences()[k]
                                == symbol;
                        assert(added[k + 1] == symbol);
                    }
                }
                if rule_variables(earlier).contains(symbol) {
                    let i = choose|i: int|
                        0 <= i < earlier.len() && ((#[trigger] earlier[i]).0.0 == symbol
                            || earlier[i].1.mentions(symbol));
                    assert(now[i] == earlier[i]);
                }
                if added.contains(symbol) {
                    let k = choose|k: int| 0 <= k < added.len() && added[k] == symbol;
                    assert(now[index as int] == rule);
                    if k > 0 {
                        assert(rule.1.occurrences()[k - 1] == symbol);
                    }
                }
            }
            assert(in_use@.to_set() =~= rule_variables(now));
        }
        index += 1;
    }
    proof {
        assert(trees.subrange(0, index as int) =~= trees);
    }
    let mut pass = NormalizationPass::new(in_use);
    let result = normalize_pending(pending, &mut pass);
    proof {
        if result is Ok && has_one_rule_for_each_variable(trees) {
            lemma_normalized_rules_keep_the_language(trees);
        }
    }
    result
}

} // verus!
