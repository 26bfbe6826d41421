//! The rules that rewriting a grammar gives generate, under each variable
//! of the grammar, the words that the grammar generated.

use crate::backus_naur_form::Bnf;
use crate::extended_backus_naur_form::conversion_laws::{
    lemma_conversion_accounts,
    lemma_repetition_accounts,
    meets,
    repetitions_of,
};
use crate::extended_backus_naur_form::ebnf_element::Ebnf;
use crate::extended_backus_naur_form::element_conversion_result::Conversions;
use crate::extended_backus_naur_form::grammar_normalization::{
    lemma_step_lightens,
    normalized,
    pending_weight,
    rule_variables,
    state_after,
};
use crate::extended_backus_naur_form::language::{in_language, stands_for_repetition};
use crate::extended_backus_naur_form::language_preservation::{
    covers,
    lemma_occurrences_of_child,
    lemma_variables_keep_their_language,
    over,
    rewritten,
    Rewriting,
};
use crate::extended_backus_naur_form::normalization_pass::PassState;
use crate::extended_backus_naur_form::{
    converted,
    converted_children,
    converted_repetition,
    lemma_extends_transitive,
    repetition_rule,
};
use crate::model::Variable;
use vstd::prelude::*;

verus! {

/// The plain production `plain` as an extended one.
pub open spec fn embedded(plain: Bnf) -> Ebnf
    decreases plain,
{
    match plain {
        Bnf::Epsilon => Ebnf::Epsilon,
        Bnf::Terminal(terminal) => Ebnf::Terminal(terminal),
        Bnf::Variable(variable) => Ebnf::Variable(variable),
        Bnf::Optional(sub) => Ebnf::Optional(Box::new(embedded(*sub))),
        Bnf::Alternative(children) => Ebnf::Alternative(
            Seq::new(
                children.len(),
                |i: int|
                    if 0 <= i < children.len() {
                        embedded(children[i])
                    } else {
                        Ebnf::Epsilon
                    },
            ),
        ),
        Bnf::Sequence(children) => Ebnf::Sequence(
            Seq::new(
                children.len(),
                |i: int|
                    if 0 <= i < children.len() {
                        embedded(children[i])
                    } else {
                        Ebnf::Epsilon
                    },
            ),
        ),
    }
}

/// Rewriting the rule of a repetition rewrites its operand.
pub proof fn lemma_rule_is_rewritten_by_its_operand(
    sub: Ebnf,
    variable: Variable,
    replacers: Map<Ebnf, Variable>,
)
    ensures
        rewritten(repetition_rule(sub, variable), replacers) == repetition_rule(
            rewritten(sub, replacers),
            variable,
        ),
{
    let round = seq![sub, Ebnf::Variable(variable)];
    let choices = seq![Ebnf::Epsilon, Ebnf::Sequence(round)];
    let round_image = rewritten(Ebnf::Sequence(round), replacers);
    assert(round[0] == sub);
    assert(round[1] == Ebnf::Variable(variable));
    assert(rewritten(round[1], replacers) == Ebnf::Variable(variable));
    assert(round_image->Sequence_0 =~= seq![
        rewritten(sub, replacers),
        Ebnf::Variable(variable),
    ]);
    let image = rewritten(Ebnf::Alternative(choices), replacers);
    assert(choices[0] == Ebnf::Epsilon);
    assert(choices[1] == Ebnf::Sequence(round));
    assert(rewritten(choices[0], replacers) == Ebnf::Epsilon);
    assert(image->Alternative_0 =~= seq![Ebnf::Epsilon, round_image]);
}

/// The repetitions that rewriting the rule of a repetition comes upon are
/// those of its operand, and the variables that occur in it are those of
/// the operand and its own.
pub proof fn lemma_rule_has_the_parts_of_its_operand(sub: Ebnf, variable: Variable)
    ensures
        forall|key: Ebnf| meets(repetition_rule(sub, variable), key) <==> meets(sub, key),
        forall|symbol: char|
            repetition_rule(sub, variable).mentions(symbol) <==> sub.mentions(symbol) || symbol
                == variable.0,
{
    let round = seq![sub, Ebnf::Variable(variable)];
    let choices = seq![Ebnf::Epsilon, Ebnf::Sequence(round)];
    let rule = Ebnf::Alternative(choices);
    assert(round[0] == sub);
    assert(round[1] == Ebnf::Variable(variable));
    assert(choices[0] == Ebnf::Epsilon);
    assert(choices[1] == Ebnf::Sequence(round));
    let turn = Ebnf::Sequence(round);
    assert(turn->Sequence_0 == round);
    assert(rule->Alternative_0 == choices);
    assert(round.len() == 2);
    assert(choices.len() == 2);
    assert forall|key: Ebnf| meets(rule, key) <==> meets(sub, key) by {
        assert(meets(turn, key) == (exists|j: int|
            0 <= j < round.len() && meets(#[trigger] round[j], key)));
        assert(meets(rule, key) == (exists|i: int|
            0 <= i < choices.len() && meets(#[trigger] choices[i], key)));
        if meets(rule, key) {
            let i = choose|i: int| 0 <= i < choices.len() && meets(#[trigger] choices[i], key);
            assert(i == 1);
            let j = choose|j: int| 0 <= j < round.len() && meets(#[trigger] round[j], key);
            assert(j == 0);
        }
        if meets(sub, key) {
            assert(meets(round[0], key));
            assert(meets(turn, key));
            assert(meets(choices[1], key));
        }
    }
    assert(Ebnf::occurrences_among(round, 0) =~= Seq::<char>::empty());
    assert(Ebnf::occurrences_among(round, 1) =~= sub.occurrences());
    assert(round[1].occurrences() == seq![variable.0]);
    assert(Ebnf::occurrences_among(round, 2) =~= sub.occurrences() + seq![variable.0]);
    assert(Ebnf::occurrences_among(choices, 0) =~= Seq::<char>::empty());
    assert(choices[0].occurrences() =~= Seq::<char>::empty());
    assert(Ebnf::occurrences_among(choices, 1) =~= Seq::<char>::empty());
    assert(turn.occurrences() == Ebnf::occurrences_among(round, 2));
    assert(Ebnf::occurrences_among(choices, 2) =~= sub.occurrences() + seq![variable.0]);
    assert(rule.occurrences() == sub.occurrences() + seq![variable.0]);
    assert forall|symbol: char|
        rule.mentions(symbol) <==> sub.mentions(symbol) || symbol == variable.0 by {
        let all = sub.occurrences() + seq![variable.0];
        if sub.mentions(symbol) {
            let k = choose|k: int| 0 <= k < sub.occurrences().len() && sub.occurrences()[k]
                == symbol;
            assert(all[k] == symbol);
        }
        if symbol == variable.0 {
            assert(all[sub.occurrences().len() as int] == symbol);
        }
        if rule.mentions(symbol) {
            let k = choose|k: int| 0 <= k < all.len() && all[k] == symbol;
            if k < sub.occurrences().len() {
                assert(sub.occurrences()[k] == symbol);
            }
        }
    }
}

/// What occurs in a repetition that rewriting a production comes upon
/// occurs in the production.
pub proof fn lemma_met_repetition_is_part(el: Ebnf, sub: Ebnf, symbol: char)
    requires
        meets(el, Ebnf::RepetitionZero(Box::new(sub))),
        sub.mentions(symbol),
    ensures
        el.mentions(symbol),
    decreases el,
{
    let key = Ebnf::RepetitionZero(Box::new(sub));
    match el {
        Ebnf::Optional(inner) => {
            lemma_met_repetition_is_part(*inner, sub, symbol);
        },
        Ebnf::RepetitionZero(inner) => {
            assert(*inner == sub);
        },
        Ebnf::RepetitionOne(inner) => {
            if meets(*inner, key) {
                lemma_met_repetition_is_part(*inner, sub, symbol);
            } else {
                assert(*inner == sub);
            }
        },
        Ebnf::Alternative(children) => {
            let i = choose|i: int| 0 <= i < children.len() && meets(#[trigger] children[i], key);
            lemma_met_repetition_is_part(children[i], sub, symbol);
            lemma_occurrences_of_child(children, children.len(), i, symbol);
        },
        Ebnf::Sequence(children) => {
            let i = choose|i: int| 0 <= i < children.len() && meets(#[trigger] children[i], key);
            lemma_met_repetition_is_part(children[i], sub, symbol);
            lemma_occurrences_of_child(children, children.len(), i, symbol);
        },
        _ => {},
    }
}

/// A map that holds a second, which holds a third, holds the third.
proof fn lemma_submap_transitive(
    first: Map<Ebnf, Variable>,
    middle: Map<Ebnf, Variable>,
    last: Map<Ebnf, Variable>,
)
    requires
        first.submap_of(middle),
        middle.submap_of(last),
    ensures
        first.submap_of(last),
{
    assert forall|key: Ebnf| #[trigger] first.dom().contains(key) implies last.dom().contains(key)
        && first[key] == last[key] by {
        assert(middle.dom().contains(key));
    }
}

/// The variable that rewriting puts in the place of a repetition is the
/// one that the pass has for it afterwards, and ever after.
pub proof fn lemma_repetition_output_is_its_variable(
    sub: Ebnf,
    state: PassState,
    later: Map<Ebnf, Variable>,
)
    requires
        converted_repetition(sub, state) is Some,
        converted_repetition(sub, state).unwrap().1.replacers.submap_of(later),
    ensures
        later.contains_key(Ebnf::RepetitionZero(Box::new(sub))),
        converted_repetition(sub, state).unwrap().0.output_element == Bnf::Variable(
            later[Ebnf::RepetitionZero(Box::new(sub))],
        ),
{
    let key = Ebnf::RepetitionZero(Box::new(sub));
    let (conversion, after) = converted_repetition(sub, state).unwrap();
    assert(after.replacers.dom().contains(key));
    assert(later.dom().contains(key));
    assert(after.replacers[key] == later[key]);
    if state.replacers.contains_key(key) {
        assert(conversion.output_element == Bnf::Variable(state.replacers[key]));
    } else {
        let variable = Variable(state.allocator.fresh());
        assert(after.replacers == state.replacers.insert(key, variable));
        assert(after.replacers[key] == variable);
    }
}

/// What rewriting puts in the place of a production is the production with
/// each repetition that it comes upon replaced by the variable that the
/// pass has for it afterwards, and ever after.
pub proof fn lemma_output_is_rewritten(el: Ebnf, state: PassState, later: Map<Ebnf, Variable>)
    requires
        converted(el, state) is Some,
        converted(el, state).unwrap().1.replacers.submap_of(later),
    ensures
        embedded(converted(el, state).unwrap().0.output_element) == rewritten(el, later),
        covers(later, el),
    decreases el, 0nat,
{
    let (conversion, after) = converted(el, state).unwrap();
    lemma_conversion_accounts(el, state);
    assert(covers(later, el)) by {
        assert forall|key: Ebnf| meets(el, key) implies #[trigger] later.contains_key(key) by {
            assert(repetitions_of(el).contains(key));
            assert(after.replacers.dom().contains(key));
            assert(later.dom().contains(key));
        }
    }
    match el {
        Ebnf::Optional(sub) => {
            lemma_output_is_rewritten(*sub, state, later);
        },
        Ebnf::Alternative(children) => {
            lemma_outputs_are_rewritten(children, children.len(), state, later);
            let outputs = converted_children(
                children,
                children.len(),
                state,
            ).unwrap().0.output_elements;
            assert(conversion.output_element == Bnf::Alternative(outputs));
            assert(embedded(conversion.output_element)->Alternative_0 =~= rewritten(
                el,
                later,
            )->Alternative_0);
        },
        Ebnf::Sequence(children) => {
            lemma_outputs_are_rewritten(children, children.len(), state, later);
            let outputs = converted_children(
                children,
                children.len(),
                state,
            ).unwrap().0.output_elements;
            assert(conversion.output_element == Bnf::Sequence(outputs));
            assert(embedded(conversion.output_element)->Sequence_0 =~= rewritten(
                el,
                later,
            )->Sequence_0);
        },
        Ebnf::RepetitionZero(sub) => {
            lemma_repetition_output_is_its_variable(*sub, state, later);
        },
        Ebnf::RepetitionOne(sub) => {
            let (first, middle) = converted(*sub, state).unwrap();
            let (rest, last) = converted_repetition(*sub, middle).unwrap();
            lemma_repetition_accounts(*sub, middle);
            lemma_submap_transitive(middle.replacers, last.replacers, later);
            lemma_output_is_rewritten(*sub, state, later);
            lemma_repetition_output_is_its_variable(*sub, middle, later);
            let outputs = Conversions::empty().followed_by(first).followed_by(rest).output_elements;
            assert(outputs =~= seq![first.output_element, rest.output_element]);
            assert(conversion.output_element == Bnf::Sequence(outputs));
            assert(embedded(rest.output_element) == Ebnf::Variable(
                later[Ebnf::RepetitionZero(sub)],
            ));
            assert(embedded(conversion.output_element)->Sequence_0 =~= rewritten(
                el,
                later,
            )->Sequence_0);
        },
        _ => {},
    }
}

/// What rewriting puts in the places of a list of productions are the
/// productions with their repetitions replaced by their variables.
pub proof fn lemma_outputs_are_rewritten(
    children: Seq<Ebnf>,
    count: nat,
    state: PassState,
    later: Map<Ebnf, Variable>,
)
    requires
        count <= children.len(),
        converted_children(children, count, state) is Some,
        converted_children(children, count, state).unwrap().1.replacers.submap_of(later),
    ensures
        converted_children(children, count, state).unwrap().0.output_elements.len() == count,
        forall|i: int|
            0 <= i < count ==> embedded(
                #[trigger] converted_children(
                    children,
                    count,
                    state,
                ).unwrap().0.output_elements[i],
            ) == rewritten(children[i], later),
    decreases children, count,
{
    if count > 0 {
        let fewer = (count - 1) as nat;
        let (earlier, middle) = converted_children(children, fewer, state).unwrap();
        let (next, after) = converted(children[count - 1], middle).unwrap();
        lemma_conversion_accounts(children[count - 1], middle);
        lemma_submap_transitive(middle.replacers, after.replacers, later);
        lemma_outputs_are_rewritten(children, fewer, state, later);
        lemma_output_is_rewritten(children[count - 1], middle, later);
        let outputs = converted_children(children, count, state).unwrap().0.output_elements;
        assert(outputs =~= earlier.output_elements.push(next.output_element));
        assert forall|i: int| 0 <= i < count implies embedded(#[trigger] outputs[i]) == rewritten(
            children[i],
            later,
        ) by {
            if i < count - 1 {
                assert(outputs[i] == earlier.output_elements[i]);
            }
        }
    }
}

/// The operand of the repetition that `rule` is the rule of, where it is
/// such a rule.
pub open spec fn operand_of(rule: Ebnf) -> Ebnf {
    rule->Alternative_0[1]->Sequence_0[0]
}

/// Whether `rule` is a rule over `symbols`, or the rule of the variable of
/// a repetition whose operand is over `symbols`.
pub open spec fn is_pending_over(symbols: Set<char>, rule: (Variable, Ebnf)) -> bool {
    over(symbols, rule.1) || (rule.1 == repetition_rule(operand_of(rule.1), rule.0) && over(
        symbols,
        operand_of(rule.1),
    ))
}

/// Whether each pending rule comes first in `plain`, in its place and
/// under its variable, with each repetition replaced by its variable in
/// `last`.
pub open spec fn pending_come_first(
    pending: Seq<(Variable, Ebnf)>,
    plain: Seq<(Variable, Bnf)>,
    last: PassState,
) -> bool {
    &&& plain.len() >= pending.len()
    &&& forall|i: int|
        0 <= i < pending.len() ==> {
            &&& (#[trigger] plain[i]).0 == pending[i].0
            &&& embedded(plain[i].1) == rewritten(pending[i].1, last.replacers)
            &&& covers(last.replacers, pending[i].1)
        }
}

/// Whether the rule at `place` in `plain` is the rule of the variable of
/// the repetition `key`, rewritten with the variables in `last`.
pub open spec fn is_rule_of(
    plain: Seq<(Variable, Bnf)>,
    place: int,
    key: Ebnf,
    last: PassState,
) -> bool {
    &&& 0 <= place < plain.len()
    &&& plain[place].0 == last.replacers[key]
    &&& embedded(plain[place].1) == repetition_rule(
        rewritten(*key->RepetitionZero_0, last.replacers),
        plain[place].0,
    )
}

/// Whether each repetition that got its variable since `state` has an
/// operand over `symbols`, all of whose repetitions have variables too, and
/// the rule of its variable among the rules of `plain` from `from` on.
pub open spec fn new_repetitions_have_rules(
    from: int,
    state: PassState,
    symbols: Set<char>,
    plain: Seq<(Variable, Bnf)>,
    last: PassState,
) -> bool {
    forall|key: Ebnf| #[trigger]
        last.replacers.contains_key(key) && !state.replacers.contains_key(key) ==> {
            &&& key is RepetitionZero
            &&& over(symbols, *key->RepetitionZero_0)
            &&& covers(last.replacers, *key->RepetitionZero_0)
            &&& exists|place: int| from <= place && #[trigger] is_rule_of(plain, place, key, last)
        }
}

/// Whether the variables of the rules of `plain` from `from` on were not
/// in use in `state`.
pub open spec fn rules_behind_are_fresh(from: int, state: PassState, plain: Seq<(Variable, Bnf)>) -> bool {
    forall|j: int|
        from <= j < plain.len() ==> !state.allocator.in_use.contains((#[trigger] plain[j]).0.0)
}

/// Whether no two rules of `plain` from `from` on have the same variable.
pub open spec fn rules_behind_are_distinct(from: int, plain: Seq<(Variable, Bnf)>) -> bool {
    forall|j: int, k: int|
        from <= j < k < plain.len() ==> (#[trigger] plain[j]).0 != (#[trigger] plain[k]).0
}

/// Whether `plain` and the state `last` are what rewriting the rules
/// `pending` from `state` on has to give for a grammar over `symbols`:
///
/// - the pass has forgotten nothing;
/// - each pending rule comes first, in its place and under its variable,
///   with each repetition replaced by its variable in `last`;
/// - each repetition that got its variable since `state` has an operand
///   over `symbols`, and the rule of its variable is among the rules
///   behind the pending ones, rewritten in the same way;
/// - the variables of the rules behind the pending ones were not in use
///   in `state`, and no two of those rules have the same variable.
pub open spec fn is_outcome(
    pending: Seq<(Variable, Ebnf)>,
    state: PassState,
    symbols: Set<char>,
    plain: Seq<(Variable, Bnf)>,
    last: PassState,
) -> bool {
    &&& last.extends(state)
    &&& pending_come_first(pending, plain, last)
    &&& new_repetitions_have_rules(pending.len() as int, state, symbols, plain, last)
    &&& rules_behind_are_fresh(pending.len() as int, state, plain)
    &&& rules_behind_are_distinct(pending.len() as int, plain)
}

/// The operand of a repetition that rewriting a pending rule comes upon is
/// over the symbols of the grammar.
proof fn lemma_met_operand_is_over(symbols: Set<char>, rule: (Variable, Ebnf), sub: Ebnf)
    requires
        is_pending_over(symbols, rule),
        meets(rule.1, Ebnf::RepetitionZero(Box::new(sub))),
    ensures
        over(symbols, sub),
{
    let key = Ebnf::RepetitionZero(Box::new(sub));
    assert forall|symbol: char| sub.mentions(symbol) implies #[trigger] symbols.contains(
        symbol,
    ) by {
        if over(symbols, rule.1) {
            lemma_met_repetition_is_part(rule.1, sub, symbol);
        } else {
            let operand = operand_of(rule.1);
            lemma_rule_has_the_parts_of_its_operand(operand, rule.0);
            assert(meets(operand, key));
            lemma_met_repetition_is_part(operand, sub, symbol);
        }
    }
}

/// What rewriting a production minted in the `place`-th place: a variable
/// that was not in use and is now, for a repetition that the production
/// comes upon and that had no variable, with the rule that defines it.
pub proof fn lemma_minted_entry(el: Ebnf, state: PassState, place: int)
    requires
        converted(el, state) is Some,
        0 <= place < converted(el, state).unwrap().0.new_rules.len(),
    ensures
        ({
            let (conversion, after) = converted(el, state).unwrap();
            let key = conversion.new_replacers[place].0;
            let variable = Variable(conversion.new_variables[place]);
            &&& conversion.new_replacers.len() == conversion.new_rules.len()
            &&& conversion.new_variables.len() == conversion.new_rules.len()
            &&& key is RepetitionZero
            &&& meets(el, key)
            &&& conversion.new_rules[place] == (
                variable,
                repetition_rule(*key->RepetitionZero_0, variable),
            )
            &&& !state.replacers.contains_key(key)
            &&& after.replacers.contains_key(key)
            &&& after.replacers[key] == variable
            &&& !state.allocator.in_use.contains(variable.0)
            &&& after.allocator.in_use.contains(variable.0)
        }),
{
    let (conversion, after) = converted(el, state).unwrap();
    lemma_conversion_accounts(el, state);
    let symbol = conversion.new_variables[place];
    assert(conversion.new_replacers[place].1 == Variable(symbol));
    assert(repetitions_of(el).contains(conversion.new_replacers[place].0));
    assert(conversion.new_variables.to_set().contains(symbol));
}

/// What rewriting a production minted in different places are different
/// variables.
pub proof fn lemma_minted_entries_differ(el: Ebnf, state: PassState, first: int, second: int)
    requires
        converted(el, state) is Some,
        0 <= first < second < converted(el, state).unwrap().0.new_variables.len(),
    ensures
        converted(el, state).unwrap().0.new_variables[first] != converted(
            el,
            state,
        ).unwrap().0.new_variables[second],
{
    let conversion = converted(el, state).unwrap().0;
    lemma_conversion_accounts(el, state);
    assert((conversion.new_variables[first] as u32) < (conversion.new_variables[second] as u32));
}

/// A repetition that has its variable since a production was rewritten was
/// minted for it, and the pass forgot nothing over it.
pub proof fn lemma_new_repetition_was_minted(el: Ebnf, state: PassState, key: Ebnf)
    requires
        converted(el, state) is Some,
        converted(el, state).unwrap().1.replacers.contains_key(key),
        !state.replacers.contains_key(key),
    ensures
        converted(el, state).unwrap().0.new_replacers.len() == converted(
            el,
            state,
        ).unwrap().0.new_rules.len(),
        exists|place: int|
            0 <= place < converted(el, state).unwrap().0.new_replacers.len() && (
            #[trigger] converted(el, state).unwrap().0.new_replacers[place]).0 == key,
{
    let (conversion, after) = converted(el, state).unwrap();
    lemma_conversion_accounts(el, state);
    assert(after.replacers.dom().contains(key));
    assert(repetitions_of(el).contains(key));
}

/// The pass forgets nothing over the rewriting of a production.
pub proof fn lemma_conversion_extends(el: Ebnf, state: PassState)
    requires
        converted(el, state) is Some,
    ensures
        converted(el, state).unwrap().1.extends(state),
{
    lemma_conversion_accounts(el, state);
}

/// The rules that are pending after the first of the pending rules has
/// been rewritten.
pub open spec fn pending_after_step(pending: Seq<(Variable, Ebnf)>, state: PassState) -> Seq<
    (Variable, Ebnf),
> {
    pending.drop_first() + converted(pending[0].1, state).unwrap().0.new_rules
}

/// The state of the pass after the first of the pending rules has been
/// rewritten.
pub open spec fn state_after_step(pending: Seq<(Variable, Ebnf)>, state: PassState) -> PassState {
    converted(pending[0].1, state).unwrap().1
}

/// The rules that a step adds are rules of repetitions over the symbols of
/// the grammar.
proof fn lemma_step_keeps_pending_over(
    pending: Seq<(Variable, Ebnf)>,
    state: PassState,
    symbols: Set<char>,
)
    requires
        pending.len() > 0,
        converted(pending[0].1, state) is Some,
        forall|i: int| 0 <= i < pending.len() ==> is_pending_over(symbols, #[trigger] pending[i]),
        symbols.subset_of(state.allocator.in_use),
    ensures
        forall|i: int|
            0 <= i < pending_after_step(pending, state).len() ==> is_pending_over(
                symbols,
                #[trigger] pending_after_step(pending, state)[i],
            ),
        symbols.subset_of(state_after_step(pending, state).allocator.in_use),
{
    let (conversion, middle) = converted(pending[0].1, state).unwrap();
    let next = pending_after_step(pending, state);
    let first = pending.len() as int;
    assert forall|i: int| 0 <= i < next.len() implies is_pending_over(
        symbols,
        #[trigger] next[i],
    ) by {
        if i < first - 1 {
            assert(next[i] == pending[i + 1]);
        } else {
            let k = i - (first - 1);
            assert(next[i] == conversion.new_rules[k]);
            lemma_minted_entry(pending[0].1, state, k);
            let key = conversion.new_replacers[k].0;
            let operand = *key->RepetitionZero_0;
            let variable = Variable(conversion.new_variables[k]);
            assert(key == Ebnf::RepetitionZero(Box::new(operand)));
            lemma_met_operand_is_over(symbols, pending[0], operand);
            let round = seq![operand, Ebnf::Variable(variable)];
            let choices = seq![Ebnf::Epsilon, Ebnf::Sequence(round)];
            assert(choices[1] == Ebnf::Sequence(round));
            assert(round[0] == operand);
            assert(operand_of(next[i].1) == operand);
        }
    }
    lemma_conversion_extends(pending[0].1, state);
    assert forall|symbol: char| symbols.contains(symbol) implies #[trigger]
        middle.allocator.in_use.contains(symbol) by {
        assert(state.allocator.in_use.contains(symbol));
    }
}

/// After a step, the pending rules still come first.
proof fn lemma_step_keeps_pending_first(
    pending: Seq<(Variable, Ebnf)>,
    state: PassState,
    rest: Seq<(Variable, Bnf)>,
    last: PassState,
)
    requires
        pending.len() > 0,
        converted(pending[0].1, state) is Some,
        last.extends(state_after_step(pending, state)),
        pending_come_first(pending_after_step(pending, state), rest, last),
    ensures
        pending_come_first(
            pending,
            seq![(pending[0].0, converted(pending[0].1, state).unwrap().0.output_element)] + rest,
            last,
        ),
{
    let (conversion, middle) = converted(pending[0].1, state).unwrap();
    let next = pending_after_step(pending, state);
    let plain = seq![(pending[0].0, conversion.output_element)] + rest;
    assert forall|i: int| 0 <= i < pending.len() implies {
        &&& (#[trigger] plain[i]).0 == pending[i].0
        &&& embedded(plain[i].1) == rewritten(pending[i].1, last.replacers)
        &&& covers(last.replacers, pending[i].1)
    } by {
        if i == 0 {
            lemma_output_is_rewritten(pending[0].1, state, last.replacers);
        } else {
            assert(plain[i] == rest[i - 1]);
            assert(next[i - 1] == pending[i]);
        }
    }
}

/// After a step, each repetition that is new since before the step has its
/// rule behind the pending rules.
proof fn lemma_step_keeps_rules_of_repetitions(
    pending: Seq<(Variable, Ebnf)>,
    state: PassState,
    symbols: Set<char>,
    rest: Seq<(Variable, Bnf)>,
    last: PassState,
)
    requires
        pending.len() > 0,
        converted(pending[0].1, state) is Some,
        is_pending_over(symbols, pending[0]),
        last.extends(state_after_step(pending, state)),
        pending_come_first(pending_after_step(pending, state), rest, last),
        new_repetitions_have_rules(
            pending_after_step(pending, state).len() as int,
            state_after_step(pending, state),
            symbols,
            rest,
            last,
        ),
    ensures
        new_repetitions_have_rules(
            pending.len() as int,
            state,
            symbols,
            seq![(pending[0].0, converted(pending[0].1, state).unwrap().0.output_element)] + rest,
            last,
        ),
{
    let (conversion, middle) = converted(pending[0].1, state).unwrap();
    let next = pending_after_step(pending, state);
    let plain = seq![(pending[0].0, conversion.output_element)] + rest;
    let first = pending.len() as int;
    assert forall|key: Ebnf| #[trigger]
        last.replacers.contains_key(key) && !state.replacers.contains_key(key) implies {
        &&& key is RepetitionZero
        &&& over(symbols, *key->RepetitionZero_0)
        &&& covers(last.replacers, *key->RepetitionZero_0)
        &&& exists|place: int| first <= place && #[trigger] is_rule_of(plain, place, key, last)
    } by {
        if middle.replacers.contains_key(key) {
            lemma_new_repetition_was_minted(pending[0].1, state, key);
            let k = choose|k: int|
                0 <= k < conversion.new_replacers.len() && (
                #[trigger] conversion.new_replacers[k]).0 == key;
            lemma_minted_entry(pending[0].1, state, k);
            let variable = Variable(conversion.new_variables[k]);
            let operand = *key->RepetitionZero_0;
            let place = first - 1 + k;
            assert(next[place] == conversion.new_rules[k]);
            assert(key == Ebnf::RepetitionZero(Box::new(operand)));
            lemma_met_operand_is_over(symbols, pending[0], operand);
            lemma_rule_is_rewritten_by_its_operand(operand, variable, last.replacers);
            lemma_rule_has_the_parts_of_its_operand(operand, variable);
            assert(rest[place].0 == next[place].0);
            assert(covers(last.replacers, next[place].1));
            assert(covers(last.replacers, operand)) by {
                assert forall|inner: Ebnf| meets(operand, inner) implies #[trigger]
                    last.replacers.contains_key(inner) by {
                    assert(meets(next[place].1, inner));
                }
            }
            assert(rest[place].0 == variable);
            assert(middle.replacers.dom().contains(key));
            assert(last.replacers.dom().contains(key));
            assert(middle.replacers[key] == last.replacers[key]);
            assert(plain[place + 1] == rest[place]);
            assert(is_rule_of(plain, place + 1, key, last));
        } else {
            let place = choose|place: int|
                next.len() <= place && #[trigger] is_rule_of(rest, place, key, last);
            assert(plain[place + 1] == rest[place]);
            assert(is_rule_of(plain, place + 1, key, last));
        }
    }
}

/// After a step, the variables of the rules behind the pending ones are
/// still fresh and different.
proof fn lemma_step_keeps_rules_behind_fresh(
    pending: Seq<(Variable, Ebnf)>,
    state: PassState,
    rest: Seq<(Variable, Bnf)>,
    last: PassState,
)
    requires
        pending.len() > 0,
        converted(pending[0].1, state) is Some,
        pending_come_first(pending_after_step(pending, state), rest, last),
        rules_behind_are_fresh(
            pending_after_step(pending, state).len() as int,
            state_after_step(pending, state),
            rest,
        ),
        rules_behind_are_distinct(pending_after_step(pending, state).len() as int, rest),
    ensures
        rules_behind_are_fresh(
            pending.len() as int,
            state,
            seq![(pending[0].0, converted(pending[0].1, state).unwrap().0.output_element)] + rest,
        ),
        rules_behind_are_distinct(
            pending.len() as int,
            seq![(pending[0].0, converted(pending[0].1, state).unwrap().0.output_element)] + rest,
        ),
{
    let (conversion, middle) = converted(pending[0].1, state).unwrap();
    let next = pending_after_step(pending, state);
    let plain = seq![(pending[0].0, conversion.output_element)] + rest;
    let first = pending.len() as int;
    lemma_conversion_extends(pending[0].1, state);
    assert forall|j: int| first <= j < plain.len() implies !state.allocator.in_use.contains(
        (#[trigger] plain[j]).0.0,
    ) by {
        assert(plain[j] == rest[j - 1]);
        if j - 1 < next.len() {
            let k = j - first;
            assert(next[j - 1] == conversion.new_rules[k]);
            lemma_minted_entry(pending[0].1, state, k);
        } else {
            assert(!middle.allocator.in_use.contains(rest[j - 1].0.0));
        }
    }
    assert forall|j: int, k: int| first <= j < k < plain.len() implies (#[trigger] plain[j]).0 != (
    #[trigger] plain[k]).0 by {
        assert(plain[j] == rest[j - 1]);
        assert(plain[k] == rest[k - 1]);
        if k - 1 < next.len() {
            let a = j - first;
            let b = k - first;
            assert(next[j - 1] == conversion.new_rules[a]);
            assert(next[k - 1] == conversion.new_rules[b]);
            lemma_minted_entry(pending[0].1, state, a);
            lemma_minted_entry(pending[0].1, state, b);
            lemma_minted_entries_differ(pending[0].1, state, a, b);
        } else if j - 1 < next.len() {
            let a = j - first;
            assert(next[j - 1] == conversion.new_rules[a]);
            lemma_minted_entry(pending[0].1, state, a);
            assert(!middle.allocator.in_use.contains(rest[k - 1].0.0));
        } else {
            assert(rest[j - 1].0 != rest[k - 1].0);
        }
    }
}

/// Rewriting a list of rules gives what it has to give.
pub proof fn lemma_normalization_gives_its_outcome(
    pending: Seq<(Variable, Ebnf)>,
    state: PassState,
    symbols: Set<char>,
)
    requires
        normalized(pending, state) is Some,
        forall|i: int| 0 <= i < pending.len() ==> is_pending_over(symbols, #[trigger] pending[i]),
        symbols.subset_of(state.allocator.in_use),
    ensures
        is_outcome(
            pending,
            state,
            symbols,
            normalized(pending, state).unwrap(),
            state_after(pending, state),
        ),
    decreases pending_weight(pending),
{
    let plain = normalized(pending, state).unwrap();
    let last = state_after(pending, state);
    if pending.len() > 0 {
        let (conversion, middle) = converted(pending[0].1, state).unwrap();
        let next = pending_after_step(pending, state);
        let rest = normalized(next, middle).unwrap();
        lemma_step_lightens(pending, state);
        lemma_step_keeps_pending_over(pending, state, symbols);
        lemma_normalization_gives_its_outcome(next, middle, symbols);
        lemma_conversion_extends(pending[0].1, state);
        lemma_extends_transitive(last, middle, state);
        assert(plain == seq![(pending[0].0, conversion.output_element)] + rest);
        lemma_step_keeps_pending_first(pending, state, rest, last);
        lemma_step_keeps_rules_of_repetitions(pending, state, symbols, rest, last);
        lemma_step_keeps_rules_behind_fresh(pending, state, rest, last);
    }
}

/// Whether no two of `rules` have the same variable.
pub open spec fn has_one_rule_for_each_variable(rules: Seq<(Variable, Ebnf)>) -> bool {
    forall|i: int, j: int|
        0 <= i < j < rules.len() ==> (#[trigger] rules[i]).0 != (#[trigger] rules[j]).0
}

/// The rules `rules` as a grammar: each variable with its right-hand side.
pub open spec fn grammar_of(rules: Seq<(Variable, Ebnf)>) -> Map<char, Ebnf> {
    Map::new(
        |symbol: char| exists|i: int| 0 <= i < rules.len() && (#[trigger] rules[i]).0.0 == symbol,
        |symbol: char|
            rules[choose|i: int| 0 <= i < rules.len() && (#[trigger] rules[i]).0.0 == symbol].1,
    )
}

/// The plain rules `rules` as a grammar: each variable with its right-hand
/// side.
pub open spec fn plain_grammar_of(rules: Seq<(Variable, Bnf)>) -> Map<char, Ebnf> {
    Map::new(
        |symbol: char| exists|i: int| 0 <= i < rules.len() && (#[trigger] rules[i]).0.0 == symbol,
        |symbol: char|
            embedded(
                rules[choose|i: int| 0 <= i < rules.len() && (#[trigger] rules[i]).0.0
                    == symbol].1,
            ),
    )
}

/// The rules that rewriting a grammar gives are a finished rewriting of
/// it.
pub proof fn lemma_normalization_is_a_finished_rewriting(rules: Seq<(Variable, Ebnf)>)
    requires
        has_one_rule_for_each_variable(rules),
        normalized(rules, PassState::starting(rule_variables(rules))) is Some,
    ensures
        (Rewriting {
            source: grammar_of(rules),
            plain: plain_grammar_of(
                normalized(rules, PassState::starting(rule_variables(rules))).unwrap(),
            ),
            replacers: state_after(rules, PassState::starting(rule_variables(rules))).replacers,
            symbols: rule_variables(rules),
        }).is_finished(),
{
    let symbols = rule_variables(rules);
    let state = PassState::starting(symbols);
    let plain = normalized(rules, state).unwrap();
    let last = state_after(rules, state);
    let source = grammar_of(rules);
    let target = plain_grammar_of(plain);
    let rewriting = Rewriting { source, plain: target, replacers: last.replacers, symbols };
    let first = rules.len() as int;
    assert forall|i: int| 0 <= i < rules.len() implies is_pending_over(
        symbols,
        #[trigger] rules[i],
    ) by {
        assert forall|symbol: char| rules[i].1.mentions(symbol) implies #[trigger]
            symbols.contains(symbol) by {}
    }
    lemma_normalization_gives_its_outcome(rules, state, symbols);
    assert(is_outcome(rules, state, symbols, plain, last));
    // A rule of the grammar is found again in its place.
    assert forall|i: int, j: int|
        0 <= i < rules.len() && 0 <= j < plain.len() && (#[trigger] plain[j]).0.0 == (
        #[trigger] rules[i]).0.0 implies j == i by {
        assert(symbols.contains(rules[i].0.0));
        if j < first {
            assert(plain[j].0 == rules[j].0);
            if j < i {
                assert(rules[j].0 != rules[i].0);
            }
            if i < j {
                assert(rules[i].0 != rules[j].0);
            }
        } else {
            assert(!state.allocator.in_use.contains(plain[j].0.0));
        }
    }
    assert forall|symbol: char| #[trigger] source.contains_key(symbol) implies {
        &&& symbols.contains(symbol)
        &&& rewriting.admits(source[symbol])
        &&& target.contains_key(symbol)
        &&& target[symbol] == rewritten(source[symbol], last.replacers)
    } by {
        let i = choose|i: int| 0 <= i < rules.len() && (#[trigger] rules[i]).0.0 == symbol;
        assert(plain[i].0 == rules[i].0);
        let j = choose|j: int| 0 <= j < plain.len() && (#[trigger] plain[j]).0.0 == symbol;
        assert(j == i);
        assert forall|other: char| rules[i].1.mentions(other) implies #[trigger] symbols.contains(
            other,
        ) by {}
    }
    assert forall|key: Ebnf| #[trigger] last.replacers.contains_key(key) implies {
        &&& key is RepetitionZero
        &&& rewriting.admits(*key->RepetitionZero_0)
        &&& !symbols.contains(last.replacers[key].0)
        &&& stands_for_repetition(
            target,
            last.replacers[key],
            rewritten(*key->RepetitionZero_0, last.replacers),
        )
    } by {
        assert(!state.replacers.contains_key(key));
        let place = choose|place: int|
            first <= place && #[trigger] is_rule_of(plain, place, key, last);
        let variable = last.replacers[key];
        assert(plain[place].0 == variable);
        assert(!state.allocator.in_use.contains(plain[place].0.0));
        let j = choose|j: int| 0 <= j < plain.len() && (#[trigger] plain[j]).0.0 == variable.0;
        if j < first {
            assert(plain[j].0 == rules[j].0);
            assert(symbols.contains(rules[j].0.0));
        } else if j < place {
            assert(plain[j].0 != plain[place].0);
        } else if place < j {
            assert(plain[place].0 != plain[j].0);
        }
        assert(j == place);
    }
    assert forall|symbol: char|
        symbols.contains(symbol) && !source.contains_key(symbol) implies !#[trigger]
        target.contains_key(symbol) by {
        if target.contains_key(symbol) {
            let j = choose|j: int| 0 <= j < plain.len() && (#[trigger] plain[j]).0.0 == symbol;
            if j < first {
                assert(plain[j].0 == rules[j].0);
                assert(rules[j].0.0 == symbol);
            } else {
                assert(!state.allocator.in_use.contains(plain[j].0.0));
            }
        }
    }
}

/// Rewriting a grammar keeps its language: under the rules that rewriting
/// gives, which hold no repetition, each variable of the grammar generates
/// the words that it generated under the rules of the grammar, and no
/// others.
pub proof fn lemma_normalization_keeps_the_language(
    rules: Seq<(Variable, Ebnf)>,
    variable: Variable,
    word: Seq<char>,
)
    requires
        has_one_rule_for_each_variable(rules),
        normalized(rules, PassState::starting(rule_variables(rules))) is Some,
        rule_variables(rules).contains(variable.0),
    ensures
        in_language(grammar_of(rules), Ebnf::Variable(variable), word) <==> in_language(
            plain_grammar_of(
                normalized(rules, PassState::starting(rule_variables(rules))).unwrap(),
            ),
            Ebnf::Variable(variable),
            word,
        ),
{
    let state = PassState::starting(rule_variables(rules));
    let rewriting = Rewriting {
        source: grammar_of(rules),
        plain: plain_grammar_of(normalized(rules, state).unwrap()),
        replacers: state_after(rules, state).replacers,
        symbols: rule_variables(rules),
    };
    lemma_normalization_is_a_finished_rewriting(rules);
    lemma_variables_keep_their_language(rewriting, variable, word);
}

/// Whether the plain rules `plain` generate, under each variable of the
/// grammar `rules`, the words that the grammar generates under it, and no
/// others.
pub open spec fn keeps_the_language(rules: Seq<(Variable, Ebnf)>, plain: Seq<(Variable, Bnf)>) -> bool {
    forall|variable: Variable, word: Seq<char>|
        rule_variables(rules).contains(variable.0) ==> (#[trigger] in_language(
            grammar_of(rules),
            Ebnf::Variable(variable),
            word,
        ) <==> in_language(plain_grammar_of(plain), Ebnf::Variable(variable), word))
}

/// The rules that rewriting a grammar gives keep its language.
pub proof fn lemma_normalized_rules_keep_the_language(rules: Seq<(Variable, Ebnf)>)
    requires
        has_one_rule_for_each_variable(rules),
        normalized(rules, PassState::starting(rule_variables(rules))) is Some,
    ensures
        keeps_the_language(
            rules,
            normalized(rules, PassState::starting(rule_variables(rules))).unwrap(),
        ),
{
    let plain = normalized(rules, PassState::starting(rule_variables(rules))).unwrap();
    assert forall|variable: Variable, word: Seq<char>|
        rule_variables(rules).contains(variable.0) implies (#[trigger] in_language(
        grammar_of(rules),
        Ebnf::Variable(variable),
        word,
    ) <==> in_language(plain_grammar_of(plain), Ebnf::Variable(variable), word)) by {
        lemma_normalization_keeps_the_language(rules, variable, word);
    }
}

} // verus!
