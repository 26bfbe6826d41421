//! Extended Backus-Naur productions and their rewriting into plain ones.
//!
//! A plain production has no repetition. Rewriting replaces each
//! zero-or-more repetition `p*` by a fresh variable `V` and adds the rule
//! `V -> eps | (p V)`; a one-or-more repetition `p+` is rewritten as `p`
//! followed by `p*`. Within one pass a repeated production gets one variable,
//! however often it occurs.

use crate::backus_naur_form::{BackusNaurProduction, Bnf};
use crate::extended_backus_naur_form::ebnf_element::{Ebnf, ExtendedBackusNaurProduction};
use crate::extended_backus_naur_form::element_conversion_result::{
    replacer_models,
    rule_models,
    Conversion,
    Conversions,
    ElementConversionResult,
    ElementsConversionResult,
};
use crate::extended_backus_naur_form::normalization_pass::{NormalizationPass, PassState};
use crate::extended_backus_naur_form::variable_allocator::ConversionError;
use crate::model::Variable;
use vstd::prelude::*;

pub mod conversion_laws;
pub mod ebnf_element;
pub mod element_conversion_result;
pub mod grammar_normalization;
pub mod language;
pub mod language_preservation;
pub mod normalization_pass;
pub mod rewritten_grammar;
pub mod variable_allocator;

verus! {

/// The right-hand side of the rule that defines the variable of a repeated
/// production: nothing, or the production followed by the variable again.
pub open spec fn repetition_rule(sub: Ebnf, variable: Variable) -> Ebnf {
    Ebnf::Alternative(seq![Ebnf::Epsilon, Ebnf::Sequence(seq![sub, Ebnf::Variable(variable)])])
}

/// What rewriting makes of the zero-or-more repetition of `sub` in `state`,
/// and the state it leaves; `None` where a variable is needed and none is
/// left. A repetition that has a variable is replaced by it. One that has
/// none gets the next fresh variable and the rule that defines it.
pub open spec fn converted_repetition(sub: Ebnf, state: PassState) -> Option<
    (Conversion, PassState),
> {
    let key = Ebnf::RepetitionZero(Box::new(sub));
    if state.replacers.contains_key(key) {
        Some((Conversion::simple(Bnf::Variable(state.replacers[key])), state))
    } else if state.allocator.exhausted() {
        None
    } else {
        let variable = Variable(state.allocator.fresh());
        Some(
            (
                Conversion {
                    output_element: Bnf::Variable(variable),
                    new_variables: seq![variable.0],
                    new_replacers: seq![(key, variable)],
                    new_rules: seq![(variable, repetition_rule(sub, variable))],
                },
                PassState {
                    allocator: state.allocator.after(variable.0),
                    replacers: state.replacers.insert(key, variable),
                },
            ),
        )
    }
}

/// What rewriting makes of the production `el` in `state`, and the state it
/// leaves; `None` where a variable is needed and none is left.
pub open spec fn converted(el: Ebnf, state: PassState) -> Option<(Conversion, PassState)>
    decreases el, 0nat,
{
    match el {
        Ebnf::Epsilon => Some((Conversion::simple(Bnf::Epsilon), state)),
        Ebnf::Terminal(terminal) => Some((Conversion::simple(Bnf::Terminal(terminal)), state)),
        Ebnf::Variable(variable) => Some((Conversion::simple(Bnf::Variable(variable)), state)),
        Ebnf::Optional(sub) => match converted(*sub, state) {
            Some((inner, after)) => Some(
                (
                    Conversion {
                        output_element: Bnf::Optional(Box::new(inner.output_element)),
                        new_variables: inner.new_variables,
                        new_replacers: inner.new_replacers,
                        new_rules: inner.new_rules,
                    },
                    after,
                ),
            ),
            None => None,
        },
        Ebnf::Alternative(children) => match converted_children(children, children.len(), state) {
            Some((inner, after)) => Some((inner.as_alternative(), after)),
            None => None,
        },
        Ebnf::Sequence(children) => match converted_children(children, children.len(), state) {
            Some((inner, after)) => Some((inner.as_sequence(), after)),
            None => None,
        },
        Ebnf::RepetitionZero(sub) => converted_repetition(*sub, state),
        Ebnf::RepetitionOne(sub) => match converted(*sub, state) {
            Some((first, middle)) => match converted_repetition(*sub, middle) {
                Some((rest, after)) => Some(
                    (Conversions::empty().followed_by(first).followed_by(rest).as_sequence(), after),
                ),
                None => None,
            },
            None => None,
        },
    }
}

/// What rewriting makes of the first `count` of `children`, one after the
/// other from `state` on, and the state it leaves; `None` where a variable is
/// needed and none is left.
pub open spec fn converted_children(children: Seq<Ebnf>, count: nat, state: PassState) -> Option<
    (Conversions, PassState),
>
    decreases children, count,
{
    if count == 0 || count > children.len() {
        Some((Conversions::empty(), state))
    } else {
        match converted_children(children, (count - 1) as nat, state) {
            Some((earlier, middle)) => match converted(children[count - 1], middle) {
                Some((next, after)) => Some((earlier.followed_by(next), after)),
                None => None,
            },
            None => None,
        }
    }
}

/// The state in which rewriting the repetition of `sub` leaves the pass:
/// with the new variable where one was minted, and as it was where none
/// was needed or none was left.
pub open spec fn state_left_by_repetition(sub: Ebnf, state: PassState) -> PassState {
    match converted_repetition(sub, state) {
        Some((_, after)) => after,
        None => state,
    }
}

/// The state in which rewriting the production `el` leaves the pass,
/// whether it succeeds or fails: what was minted up to the end, or up to
/// the repetition for which no variable was left, stays minted.
pub open spec fn state_left(el: Ebnf, state: PassState) -> PassState
    decreases el, 0nat,
{
    match el {
        Ebnf::Epsilon => state,
        Ebnf::Terminal(_) => state,
        Ebnf::Variable(_) => state,
        Ebnf::Optional(sub) => state_left(*sub, state),
        Ebnf::Alternative(children) => state_left_by_children(children, children.len(), state),
        Ebnf::Sequence(children) => state_left_by_children(children, children.len(), state),
        Ebnf::RepetitionZero(sub) => state_left_by_repetition(*sub, state),
        Ebnf::RepetitionOne(sub) => match converted(*sub, state) {
            Some((_, middle)) => state_left_by_repetition(*sub, middle),
            None => state_left(*sub, state),
        },
    }
}

/// The state in which rewriting the first `count` of `children` leaves the
/// pass, whether it succeeds or fails.
pub open spec fn state_left_by_children(children: Seq<Ebnf>, count: nat, state: PassState) -> PassState
    decreases children, count,
{
    if count == 0 || count > children.len() {
        state
    } else {
        match converted_children(children, (count - 1) as nat, state) {
            Some((_, middle)) => state_left(children[count - 1], middle),
            None => state_left_by_children(children, (count - 1) as nat, state),
        }
    }
}

/// Where rewriting succeeds, it leaves the pass in the state that it gives.
pub proof fn lemma_state_left_on_success(el: Ebnf, state: PassState)
    requires
        converted(el, state) is Some,
    ensures
        state_left(el, state) == converted(el, state).unwrap().1,
    decreases el, 0nat,
{
    match el {
        Ebnf::Optional(sub) => {
            lemma_state_left_on_success(*sub, state);
        },
        Ebnf::Alternative(children) => {
            lemma_state_left_by_children_on_success(children, children.len(), state);
        },
        Ebnf::Sequence(children) => {
            lemma_state_left_by_children_on_success(children, children.len(), state);
        },
        _ => {},
    }
}

/// Where rewriting a list of productions succeeds, it leaves the pass in
/// the state that it gives.
pub proof fn lemma_state_left_by_children_on_success(
    children: Seq<Ebnf>,
    count: nat,
    state: PassState,
)
    requires
        count <= children.len(),
        converted_children(children, count, state) is Some,
    ensures
        state_left_by_children(children, count, state) == converted_children(
            children,
            count,
            state,
        ).unwrap().1,
    decreases children, count,
{
    if count > 0 {
        let middle = converted_children(children, (count - 1) as nat, state).unwrap().1;
        lemma_state_left_on_success(children[count - 1], middle);
    }
}

/// Once a variable is missing for one of the children, it is missing for
/// every longer run of them.
proof fn lemma_failure_stays(children: Seq<Ebnf>, failed: nat, count: nat, state: PassState)
    requires
        converted_children(children, failed, state) is None,
        failed <= count <= children.len(),
    ensures
        converted_children(children, count, state) is None,
        state_left_by_children(children, count, state) == state_left_by_children(
            children,
            failed,
            state,
        ),
    decreases count,
{
    if failed < count {
        lemma_failure_stays(children, failed, (count - 1) as nat, state);
    }
}

/// A state that extends one that extends a third extends the third.
pub proof fn lemma_extends_transitive(last: PassState, middle: PassState, first: PassState)
    requires
        last.extends(middle),
        middle.extends(first),
    ensures
        last.extends(first),
{
    assert forall|key: Ebnf| #[trigger]
        first.replacers.dom().contains(key) implies last.replacers.dom().contains(key)
        && first.replacers[key] == last.replacers[key] by {
        assert(middle.replacers.dom().contains(key));
    }
    assert forall|symbol: char|
        first.allocator.in_use.contains(symbol) implies last.allocator.in_use.contains(symbol) by {
        assert(middle.allocator.in_use.contains(symbol));
    }
}

/// The trees of two lists of replacers, one behind the other.
proof fn lemma_replacer_models_append(
    front: Seq<(ExtendedBackusNaurProduction, Variable)>,
    back: Seq<(ExtendedBackusNaurProduction, Variable)>,
)
    ensures
        replacer_models(front + back) == replacer_models(front) + replacer_models(back),
{
    assert(replacer_models(front + back) =~= replacer_models(front) + replacer_models(back));
}

/// The trees of two lists of rules, one behind the other.
proof fn lemma_rule_models_append(
    front: Seq<(Variable, ExtendedBackusNaurProduction)>,
    back: Seq<(Variable, ExtendedBackusNaurProduction)>,
)
    ensures
        rule_models(front + back) == rule_models(front) + rule_models(back),
{
    assert(rule_models(front + back) =~= rule_models(front) + rule_models(back));
}

/// Rewrites the zero-or-more repetition of `sub_element`: by the variable
/// that the pass has for it, or by a fresh one with the rule that defines it.
fn convert_repetition(sub_element: &ExtendedBackusNaurProduction, pass: &mut NormalizationPass) -> (result:
    Result<ElementConversionResult, ConversionError>)
    ensures
        match result {
            Ok(conversion) => converted_repetition(sub_element@, old(pass)@) == Some(
                (conversion@, final(pass)@),
            ),
            Err(error) => {
                &&& converted_repetition(sub_element@, old(pass)@) is None
                &&& error == ConversionError::IdentifiersExhausted
            },
        },
        final(pass)@ == state_left_by_repetition(sub_element@, old(pass)@),
        final(pass)@.extends(old(pass)@),
{
    let key = ExtendedBackusNaurProduction::RepetitionZero(Box::new(sub_element.clone()));
    match pass.replacer_for(&key) {
        Some(variable) => Ok(
            ElementConversionResult::simple(BackusNaurProduction::Variable(variable)),
        ),
        None => match pass.next_variable() {
            Err(error) => Err(error),
            Ok(new_variable) => {
                proof {
                    old(pass)@.allocator.lemma_fresh_is_least_offer();
                }
                let mut round: Vec<ExtendedBackusNaurProduction> = Vec::new();
                round.push(sub_element.clone());
                round.push(ExtendedBackusNaurProduction::variable(new_variable.0));
                let repeated = ExtendedBackusNaurProduction::sequence(round);
                let mut choices: Vec<ExtendedBackusNaurProduction> = Vec::new();
                choices.push(ExtendedBackusNaurProduction::epsilon());
                choices.push(repeated);
                let rule = ExtendedBackusNaurProduction::alternative(choices);
                assert(rule@ == repetition_rule(sub_element@, new_variable)) by {
                    assert(ExtendedBackusNaurProduction::models(round@) =~= seq![
                        sub_element@,
                        Ebnf::Variable(new_variable),
                    ]);
                    assert(ExtendedBackusNaurProduction::models(choices@) =~= seq![
                        Ebnf::Epsilon,
                        repeated@,
                    ]);
                }
                let replacer = key.clone();
                pass.remember(key, new_variable);
                let conversion = ElementConversionResult {
                    output_element: BackusNaurProduction::Variable(new_variable),
                    new_variables: vec![new_variable.0],
                    new_replacers: vec![(replacer, new_variable)],
                    new_rules: vec![(new_variable, rule)],
                };
                proof {
                    assert(conversion@.new_variables =~= seq![new_variable.0]);
                    assert(conversion@.new_replacers =~= seq![(key@, new_variable)]);
                    assert(conversion@.new_rules =~= seq![
                        (new_variable, repetition_rule(sub_element@, new_variable)),
                    ]);
                }
                Ok(conversion)
            },
        },
    }
}

/// Rewrites `child_elements` one after the other, each in the state that
/// the one before it left, and collects what they give, in their order.
fn convert_child_elements(
    child_elements: &Vec<ExtendedBackusNaurProduction>,
    pass: &mut NormalizationPass,
) -> (result: Result<ElementsConversionResult, ConversionError>)
    ensures
        match result {
            Ok(conversions) => converted_children(
                ExtendedBackusNaurProduction::models(child_elements@),
                child_elements@.len(),
                old(pass)@,
            ) == Some((conversions@, final(pass)@)),
            Err(error) => {
                &&& converted_children(
                    ExtendedBackusNaurProduction::models(child_elements@),
                    child_elements@.len(),
                    old(pass)@,
                ) is None
                &&& error == ConversionError::IdentifiersExhausted
            },
        },
        final(pass)@ == state_left_by_children(
            ExtendedBackusNaurProduction::models(child_elements@),
            child_elements@.len(),
            old(pass)@,
        ),
        final(pass)@.extends(old(pass)@),
    decreases child_elements, 1nat,
{
    let ghost trees = ExtendedBackusNaurProduction::models(child_elements@);
    let mut current = ElementsConversionResult::empty();
    let mut index: usize = 0;
    while index < child_elements.len()
        invariant
            index <= child_elements@.len(),
            trees == ExtendedBackusNaurProduction::models(child_elements@),
            converted_children(trees, index as nat, old(pass)@) == Some((current@, pass@)),
            pass@.extends(old(pass)@),
        decreases child_elements@.len() - index,
    {
        let ghost before = current@;
        let ghost middle = pass@;
        assert(trees[index as int] == child_elements@[index as int]@);
        let converted_child = convert_element(&child_elements[index], pass);
        proof {
            lemma_extends_transitive(pass@, middle, old(pass)@);
        }
        match converted_child {
            Ok(conversion) => {
                let ghost next = conversion@;
                let ElementConversionResult {
                    output_element,
                    mut new_variables,
                    mut new_replacers,
                    mut new_rules,
                } = conversion;
                proof {
                    lemma_replacer_models_append(current.new_replacers@, new_replacers@);
                    lemma_rule_models_append(current.new_rules@, new_rules@);
                }
                current.output_elements.push(output_element);
                current.new_variables.append(&mut new_variables);
                current.new_replacers.append(&mut new_replacers);
                current.new_rules.append(&mut new_rules);
                proof {
                    assert(current@.output_elements =~= before.output_elements.push(
                        next.output_element,
                    ));
                    assert(current@ == before.followed_by(next));
                }
            },
            Err(error) => {
                proof {
                    assert(converted_children(trees, (index + 1) as nat, old(pass)@) is None);
                    assert(state_left_by_children(trees, (index + 1) as nat, old(pass)@)
                        == pass@);
                    lemma_failure_stays(
                        trees,
                        (index + 1) as nat,
                        child_elements@.len(),
                        old(pass)@,
                    );
                }
                return Err(error);
            },
        }
        index += 1;
    }
    proof {
        lemma_state_left_by_children_on_success(trees, child_elements@.len(), old(pass)@);
    }
    Ok(current)
}

/// Rewrites the production `el` within `pass`.
///
/// The result is what [`converted`] gives for the tree of `el` and the state
/// of the pass, which moves on to the state that [`converted`] leaves. The
/// call fails exactly where a fresh variable is needed and none is left; the
/// pass then keeps what it minted before the failure, as [`state_left`]
/// says.
pub fn convert_element(el: &ExtendedBackusNaurProduction, pass: &mut NormalizationPass) -> (result:
    Result<ElementConversionResult, ConversionError>)
    ensures
        match result {
            Ok(conversion) => converted(el@, old(pass)@) == Some((conversion@, final(pass)@)),
            Err(error) => {
                &&& converted(el@, old(pass)@) is None
                &&& error == ConversionError::IdentifiersExhausted
            },
        },
        final(pass)@ == state_left(el@, old(pass)@),
        final(pass)@.extends(old(pass)@),
    decreases el, 0nat,
{
    match el {
        ExtendedBackusNaurProduction::Epsilon => Ok(
            ElementConversionResult::simple(BackusNaurProduction::Epsilon),
        ),
        ExtendedBackusNaurProduction::Terminal(terminal) => Ok(
            ElementConversionResult::simple(BackusNaurProduction::Terminal(*terminal)),
        ),
        ExtendedBackusNaurProduction::Variable(variable) => Ok(
            ElementConversionResult::simple(BackusNaurProduction::Variable(*variable)),
        ),
        ExtendedBackusNaurProduction::Alternative(sub_elements) => {
            assert(el@->Alternative_0 =~= ExtendedBackusNaurProduction::models(sub_elements@));
            match convert_child_elements(sub_elements, pass) {
                Ok(conversions) => {
                    let ElementsConversionResult {
                        output_elements,
                        new_variables,
                        new_replacers,
                        new_rules,
                    } = conversions;
                    Ok(
                        ElementConversionResult {
                            output_element: BackusNaurProduction::alternative(output_elements),
                            new_variables,
                            new_replacers,
                            new_rules,
                        },
                    )
                },
                Err(error) => Err(error),
            }
        },
        ExtendedBackusNaurProduction::Sequence(sub_elements) => {
            assert(el@->Sequence_0 =~= ExtendedBackusNaurProduction::models(sub_elements@));
            match convert_child_elements(sub_elements, pass) {
                Ok(conversions) => {
                    let ElementsConversionResult {
                        output_elements,
                        new_variables,
                        new_replacers,
                        new_rules,
                    } = conversions;
                    Ok(
                        ElementConversionResult {
                            output_element: BackusNaurProduction::sequence(output_elements),
                            new_variables,
                            new_replacers,
                            new_rules,
                        },
                    )
                },
                Err(error) => Err(error),
            }
        },
        ExtendedBackusNaurProduction::Optional(sub_element) => {
            match convert_element(sub_element, pass) {
                Ok(conversion) => {
                    let ElementConversionResult {
                        output_element,
                        new_variables,
                        new_replacers,
                        new_rules,
                    } = conversion;
                    Ok(
                        ElementConversionResult {
                            output_element: BackusNaurProduction::optional(output_element),
                            new_variables,
                            new_replacers,
                            new_rules,
                        },
                    )
                },
                Err(error) => Err(error),
            }
        },
        ExtendedBackusNaurProduction::RepetitionZero(sub_element) => convert_repetition(
            sub_element,
            pass,
        ),
        ExtendedBackusNaurProduction::RepetitionOne(sub_element) => {
            match convert_element(sub_element, pass) {
                Ok(first) => {
                    let ghost middle = pass@;
                    let converted_rest = convert_repetition(sub_element, pass);
                    proof {
                        lemma_extends_transitive(pass@, middle, old(pass)@);
                    }
                    match converted_rest {
                        Ok(rest) => {
                            let ghost first_value = first@;
                            let ghost rest_value = rest@;
                            let ElementConversionResult {
                                output_element: first_output,
                                mut new_variables,
                                mut new_replacers,
                                mut new_rules,
                            } = first;
                            let ElementConversionResult {
                                output_element: rest_output,
                                new_variables: mut rest_variables,
                                new_replacers: mut rest_replacers,
                                new_rules: mut rest_rules,
                            } = rest;
                            proof {
                                lemma_replacer_models_append(new_replacers@, rest_replacers@);
                                lemma_rule_models_append(new_rules@, rest_rules@);
                            }
                            new_variables.append(&mut rest_variables);
                            new_replacers.append(&mut rest_replacers);
                            new_rules.append(&mut rest_rules);
                            let mut outputs: Vec<BackusNaurProduction> = Vec::new();
                            outputs.push(first_output);
                            outputs.push(rest_output);
                            let conversion = ElementConversionResult {
                                output_element: BackusNaurProduction::sequence(outputs),
                                new_variables,
                                new_replacers,
                                new_rules,
                            };
                            proof {
                                let expected = Conversions::empty().followed_by(
                                    first_value,
                                ).followed_by(rest_value);
                                assert(BackusNaurProduction::models(outputs@)
                                    =~= expected.output_elements);
                                assert(conversion@.new_variables =~= expected.new_variables);
                                assert(conversion@.new_replacers =~= expected.new_replacers);
                                assert(conversion@.new_rules =~= expected.new_rules);
                            }
                            Ok(conversion)
                        },
                        Err(error) => Err(error),
                    }
                },
                Err(error) => Err(error),
            }
        },
    }
}

/// Rewrites the production `el`, taken by itself: every variable that
/// occurs in `el` counts as in use, fresh variables are the free symbols
/// from `'A'` upward, and no repeated production has a variable yet.
///
/// The call fails exactly where a fresh variable is needed and none is left.
pub fn convert_to_bnf(el: &ExtendedBackusNaurProduction) -> (result: Result<
    ElementConversionResult,
    ConversionError,
>)
    ensures
        match result {
            Ok(conversion) => {
                &&& converted(el@, PassState::starting(el@.variables())) is Some
                &&& converted(el@, PassState::starting(el@.variables())).unwrap().0 == conversion@
            },
            Err(error) => {
                &&& converted(el@, PassState::starting(el@.variables())) is None
                &&& error == ConversionError::IdentifiersExhausted
            },
        },
{
    let in_use = el.variables();
    let mut pass = NormalizationPass::new(in_use);
    convert_element(el, &mut pass)
}

} // verus!
