//! The words that a production generates under the rules of a grammar, and
//! why the two repetitions may be rewritten as they are.

use crate::extended_backus_naur_form::ebnf_element::Ebnf;
use crate::extended_backus_naur_form::repetition_rule;
use crate::model::Variable;
use vstd::prelude::*;

verus! {

/// Whether the production `el` generates `word` under `rules` in a
/// derivation that goes from a variable to its rule at most `depth` times in
/// a row.
///
/// The empty production generates the empty word, a terminal the word of
/// its symbol, a variable what its rule generates; an optional production
/// generates the empty word and what its operand generates, an alternative
/// what any of its children generates, a sequence the words made of one
/// word of each child in their order; a repetition generates what
/// [`generates_repeatedly`] says, the one-or-more repetition after a first
/// word of its operand.
pub open spec fn generates(rules: Map<char, Ebnf>, el: Ebnf, word: Seq<char>, depth: nat) -> bool
    decreases depth, el, 0nat,
{
    match el {
        Ebnf::Epsilon => word.len() == 0,
        Ebnf::Terminal(terminal) => word == seq![terminal.0],
        Ebnf::Variable(variable) => depth > 0 && rules.contains_key(variable.0) && generates(
            rules,
            rules[variable.0],
            word,
            (depth - 1) as nat,
        ),
        Ebnf::Optional(sub) => word.len() == 0 || generates(rules, *sub, word, depth),
        Ebnf::Alternative(children) => exists|i: int|
            0 <= i < children.len() && generates(rules, #[trigger] children[i], word, depth),
        Ebnf::Sequence(children) => generates_in_turn(
            rules,
            children,
            children.len(),
            word,
            depth,
        ),
        Ebnf::RepetitionZero(sub) => generates_repeatedly(rules, *sub, word, depth),
        Ebnf::RepetitionOne(sub) => exists|cut: int|
            0 <= cut <= word.len() && generates(rules, *sub, #[trigger] word.subrange(0, cut), depth)
                && generates_repeatedly(rules, *sub, word.subrange(cut, word.len() as int), depth),
    }
}

/// Whether `word` is made of one word of each of the first `count` of
/// `children`, in their order.
pub open spec fn generates_in_turn(
    rules: Map<char, Ebnf>,
    children: Seq<Ebnf>,
    count: nat,
    word: Seq<char>,
    depth: nat,
) -> bool
    decreases depth, children, count,
{
    if count == 0 || count > children.len() {
        word.len() == 0
    } else {
        exists|cut: int|
            0 <= cut <= word.len() && generates_in_turn(
                rules,
                children,
                (count - 1) as nat,
                #[trigger] word.subrange(0, cut),
                depth,
            ) && generates(
                rules,
                children[count - 1],
                word.subrange(cut, word.len() as int),
                depth,
            )
    }
}

/// Whether `word` is made of words of `el`, any number of them: it is
/// empty, or it starts with a word of `el` that is not empty and goes on
/// with words of `el`. An empty word of `el` adds nothing to a word, so it
/// need not be counted.
pub open spec fn generates_repeatedly(rules: Map<char, Ebnf>, el: Ebnf, word: Seq<char>, depth: nat) -> bool
    decreases depth, el, word.len(),
{
    word.len() == 0 || exists|cut: int|
        0 < cut <= word.len() && generates(rules, el, #[trigger] word.subrange(0, cut), depth)
            && generates_repeatedly(rules, el, word.subrange(cut, word.len() as int), depth)
}

/// Whether `word` belongs to the language of `el` under `rules`.
pub open spec fn in_language(rules: Map<char, Ebnf>, el: Ebnf, word: Seq<char>) -> bool {
    exists|depth: nat| generates(rules, el, word, depth)
}

/// What is generated within some depth is generated within any greater one.
pub proof fn lemma_generates_with_more_depth(
    rules: Map<char, Ebnf>,
    el: Ebnf,
    word: Seq<char>,
    depth: nat,
    more: nat,
)
    requires
        generates(rules, el, word, depth),
        depth <= more,
    ensures
        generates(rules, el, word, more),
    decreases depth, el, 0nat,
{
    match el {
        Ebnf::Epsilon => {},
        Ebnf::Terminal(_) => {},
        Ebnf::Variable(variable) => {
            lemma_generates_with_more_depth(
                rules,
                rules[variable.0],
                word,
                (depth - 1) as nat,
                (more - 1) as nat,
            );
        },
        Ebnf::Optional(sub) => {
            if word.len() != 0 {
                lemma_generates_with_more_depth(rules, *sub, word, depth, more);
            }
        },
        Ebnf::Alternative(children) => {
            let i = choose|i: int|
                0 <= i < children.len() && generates(rules, #[trigger] children[i], word, depth);
            lemma_generates_with_more_depth(rules, children[i], word, depth, more);
        },
        Ebnf::Sequence(children) => {
            lemma_generates_in_turn_with_more_depth(
                rules,
                children,
                children.len(),
                word,
                depth,
                more,
            );
        },
        Ebnf::RepetitionZero(sub) => {
            lemma_generates_repeatedly_with_more_depth(rules, *sub, word, depth, more);
        },
        Ebnf::RepetitionOne(sub) => {
            let cut = choose|cut: int|
                0 <= cut <= word.len() && generates(
                    rules,
                    *sub,
                    #[trigger] word.subrange(0, cut),
                    depth,
                ) && generates_repeatedly(
                    rules,
                    *sub,
                    word.subrange(cut, word.len() as int),
                    depth,
                );
            lemma_generates_with_more_depth(rules, *sub, word.subrange(0, cut), depth, more);
            lemma_generates_repeatedly_with_more_depth(
                rules,
                *sub,
                word.subrange(cut, word.len() as int),
                depth,
                more,
            );
        },
    }
}

/// What a list of productions generates in turn within some depth, it
/// generates within any greater one.
pub proof fn lemma_generates_in_turn_with_more_depth(
    rules: Map<char, Ebnf>,
    children: Seq<Ebnf>,
    count: nat,
    word: Seq<char>,
    depth: nat,
    more: nat,
)
    requires
        generates_in_turn(rules, children, count, word, depth),
        depth <= more,
    ensures
        generates_in_turn(rules, children, count, word, more),
    decreases depth, children, count,
{
    if !(count == 0 || count > children.len()) {
        let cut = choose|cut: int|
            0 <= cut <= word.len() && generates_in_turn(
                rules,
                children,
                (count - 1) as nat,
                #[trigger] word.subrange(0, cut),
                depth,
            ) && generates(
                rules,
                children[count - 1],
                word.subrange(cut, word.len() as int),
                depth,
            );
        lemma_generates_in_turn_with_more_depth(
            rules,
            children,
            (count - 1) as nat,
            word.subrange(0, cut),
            depth,
            more,
        );
        lemma_generates_with_more_depth(
            rules,
            children[count - 1],
            word.subrange(cut, word.len() as int),
            depth,
            more,
        );
    }
}

/// What a production generates repeatedly within some depth, it generates
/// repeatedly within any greater one.
pub proof fn lemma_generates_repeatedly_with_more_depth(
    rules: Map<char, Ebnf>,
    el: Ebnf,
    word: Seq<char>,
    depth: nat,
    more: nat,
)
    requires
        generates_repeatedly(rules, el, word, depth),
        depth <= more,
    ensures
        generates_repeatedly(rules, el, word, more),
    decreases depth, el, word.len(),
{
    if word.len() != 0 {
        let cut = choose|cut: int|
            0 < cut <= word.len() && generates(rules, el, #[trigger] word.subrange(0, cut), depth)
                && generates_repeatedly(rules, el, word.subrange(cut, word.len() as int), depth);
        lemma_generates_with_more_depth(rules, el, word.subrange(0, cut), depth, more);
        lemma_generates_repeatedly_with_more_depth(
            rules,
            el,
            word.subrange(cut, word.len() as int),
            depth,
            more,
        );
    }
}

/// Whether `variable` has, under `rules`, the rule that rewriting gives to
/// the variable of the repetition of `sub`.
pub open spec fn stands_for_repetition(rules: Map<char, Ebnf>, variable: Variable, sub: Ebnf) -> bool {
    rules.contains_key(variable.0) && rules[variable.0] == repetition_rule(sub, variable)
}

/// An alternative generates what one of its children generates.
pub proof fn lemma_choice_generates(
    rules: Map<char, Ebnf>,
    children: Seq<Ebnf>,
    choice: int,
    word: Seq<char>,
    depth: nat,
)
    requires
        0 <= choice < children.len(),
        generates(rules, children[choice], word, depth),
    ensures
        generates(rules, Ebnf::Alternative(children), word, depth),
{
    let el = Ebnf::Alternative(children);
    assert(el->Alternative_0 == children);
    assert(generates(rules, el, word, depth) == (exists|i: int|
        0 <= i < children.len() && generates(rules, #[trigger] children[i], word, depth)));
}

/// A list of one production generates in turn what the production
/// generates.
pub proof fn lemma_first_in_turn(
    rules: Map<char, Ebnf>,
    children: Seq<Ebnf>,
    word: Seq<char>,
    depth: nat,
)
    requires
        children.len() >= 1,
    ensures
        generates_in_turn(rules, children, 1, word, depth) == generates(
            rules,
            children[0],
            word,
            depth,
        ),
{
    if generates_in_turn(rules, children, 1, word, depth) {
        let cut = choose|cut: int|
            0 <= cut <= word.len() && generates_in_turn(
                rules,
                children,
                0,
                #[trigger] word.subrange(0, cut),
                depth,
            ) && generates(rules, children[0], word.subrange(cut, word.len() as int), depth);
        assert(word.subrange(0, cut).len() == 0);
        assert(word.subrange(cut, word.len() as int) =~= word);
    }
    if generates(rules, children[0], word, depth) {
        assert(word.subrange(0, 0).len() == 0);
        assert(generates_in_turn(rules, children, 0, word.subrange(0, 0), depth));
        assert(word.subrange(0, word.len() as int) =~= word);
    }
}

/// A sequence of two productions generates the words made of a word of the
/// first and a word of the second.
pub proof fn lemma_pair_in_turn(
    rules: Map<char, Ebnf>,
    first: Ebnf,
    second: Ebnf,
    word: Seq<char>,
    depth: nat,
)
    ensures
        generates(rules, Ebnf::Sequence(seq![first, second]), word, depth) <==> exists|cut: int|
            0 <= cut <= word.len() && generates(
                rules,
                first,
                #[trigger] word.subrange(0, cut),
                depth,
            ) && generates(rules, second, word.subrange(cut, word.len() as int), depth),
{
    let children = seq![first, second];
    assert(children[0] == first);
    assert(children[1] == second);
    assert(generates(rules, Ebnf::Sequence(children), word, depth) == generates_in_turn(
        rules,
        children,
        2,
        word,
        depth,
    ));
    if generates_in_turn(rules, children, 2, word, depth) {
        let cut = choose|cut: int|
            0 <= cut <= word.len() && generates_in_turn(
                rules,
                children,
                1,
                #[trigger] word.subrange(0, cut),
                depth,
            ) && generates(rules, children[1], word.subrange(cut, word.len() as int), depth);
        lemma_first_in_turn(rules, children, word.subrange(0, cut), depth);
    }
    if exists|cut: int|
        0 <= cut <= word.len() && generates(rules, first, #[trigger] word.subrange(0, cut), depth)
            && generates(rules, second, word.subrange(cut, word.len() as int), depth) {
        let cut = choose|cut: int|
            0 <= cut <= word.len() && generates(
                rules,
                first,
                #[trigger] word.subrange(0, cut),
                depth,
            ) && generates(rules, second, word.subrange(cut, word.len() as int), depth);
        lemma_first_in_turn(rules, children, word.subrange(0, cut), depth);
    }
}

/// A production that is repeated one or more times generates what the
/// sequence of the production and its repetition zero or more times
/// generates.
pub proof fn lemma_one_or_more_generates_one_then_zero_or_more(
    rules: Map<char, Ebnf>,
    sub: Ebnf,
    word: Seq<char>,
    depth: nat,
)
    ensures
        generates(rules, Ebnf::RepetitionOne(Box::new(sub)), word, depth) == generates(
            rules,
            Ebnf::Sequence(seq![sub, Ebnf::RepetitionZero(Box::new(sub))]),
            word,
            depth,
        ),
{
    let repetition = Ebnf::RepetitionZero(Box::new(sub));
    lemma_pair_in_turn(rules, sub, repetition, word, depth);
    if generates(rules, Ebnf::RepetitionOne(Box::new(sub)), word, depth) {
        let cut = choose|cut: int|
            0 <= cut <= word.len() && generates(
                rules,
                sub,
                #[trigger] word.subrange(0, cut),
                depth,
            ) && generates_repeatedly(rules, sub, word.subrange(cut, word.len() as int), depth);
        assert(generates(rules, repetition, word.subrange(cut, word.len() as int), depth));
    }
    if generates(rules, Ebnf::Sequence(seq![sub, repetition]), word, depth) {
        let cut = choose|cut: int|
            0 <= cut <= word.len() && generates(
                rules,
                sub,
                #[trigger] word.subrange(0, cut),
                depth,
            ) && generates(rules, repetition, word.subrange(cut, word.len() as int), depth);
        assert(generates_repeatedly(rules, sub, word.subrange(cut, word.len() as int), depth));
    }
}

/// What the variable of a repetition generates is made of words of the
/// repeated production.
pub proof fn lemma_variable_generates_repetitions(
    rules: Map<char, Ebnf>,
    variable: Variable,
    sub: Ebnf,
    word: Seq<char>,
    depth: nat,
)
    requires
        stands_for_repetition(rules, variable, sub),
        generates(rules, Ebnf::Variable(variable), word, depth),
    ensures
        generates_repeatedly(rules, sub, word, depth),
    decreases depth,
{
    let below = (depth - 1) as nat;
    let round = Ebnf::Sequence(seq![sub, Ebnf::Variable(variable)]);
    let choices = seq![Ebnf::Epsilon, round];
    assert(rules[variable.0] == Ebnf::Alternative(choices));
    assert(generates(rules, Ebnf::Alternative(choices), word, below));
    let i = choose|i: int|
        0 <= i < choices.len() && generates(rules, #[trigger] choices[i], word, below);
    if i == 0 {
        assert(choices[0] == Ebnf::Epsilon);
    } else {
        assert(choices[1] == round);
        lemma_pair_in_turn(rules, sub, Ebnf::Variable(variable), word, below);
        let cut = choose|cut: int|
            0 <= cut <= word.len() && generates(
                rules,
                sub,
                #[trigger] word.subrange(0, cut),
                below,
            ) && generates(
                rules,
                Ebnf::Variable(variable),
                word.subrange(cut, word.len() as int),
                below,
            );
        let rest = word.subrange(cut, word.len() as int);
        lemma_variable_generates_repetitions(rules, variable, sub, rest, below);
        lemma_generates_repeatedly_with_more_depth(rules, sub, rest, below, depth);
        if cut == 0 {
            assert(rest =~= word);
        } else {
            lemma_generates_with_more_depth(rules, sub, word.subrange(0, cut), below, depth);
        }
    }
}

/// What is made of words of the repeated production is generated by the
/// variable of the repetition.
pub proof fn lemma_repetitions_are_generated_by_variable(
    rules: Map<char, Ebnf>,
    variable: Variable,
    sub: Ebnf,
    word: Seq<char>,
    depth: nat,
)
    requires
        stands_for_repetition(rules, variable, sub),
        generates_repeatedly(rules, sub, word, depth),
    ensures
        generates(rules, Ebnf::Variable(variable), word, depth + word.len() + 1),
    decreases word.len(),
{
    let below = depth + word.len();
    let round = Ebnf::Sequence(seq![sub, Ebnf::Variable(variable)]);
    let choices = seq![Ebnf::Epsilon, round];
    assert(rules[variable.0] == Ebnf::Alternative(choices));
    assert(choices.len() == 2);
    if word.len() == 0 {
        assert(choices[0] == Ebnf::Epsilon);
        assert(generates(rules, choices[0], word, below));
        lemma_choice_generates(rules, choices, 0, word, below);
    } else {
        let cut = choose|cut: int|
            0 < cut <= word.len() && generates(rules, sub, #[trigger] word.subrange(0, cut), depth)
                && generates_repeatedly(rules, sub, word.subrange(cut, word.len() as int), depth);
        let rest = word.subrange(cut, word.len() as int);
        lemma_repetitions_are_generated_by_variable(rules, variable, sub, rest, depth);
        lemma_generates_with_more_depth(
            rules,
            Ebnf::Variable(variable),
            rest,
            depth + rest.len() + 1,
            below,
        );
        lemma_generates_with_more_depth(rules, sub, word.subrange(0, cut), depth, below);
        lemma_pair_in_turn(rules, sub, Ebnf::Variable(variable), word, below);
        assert(choices[1] == round);
        assert(generates(rules, choices[1], word, below));
        lemma_choice_generates(rules, choices, 1, word, below);
    }
}

/// Under rules that give a variable the rule of a repetition, the variable
/// and the repetition have the same language: to replace the repetition by
/// the variable changes no word that is generated.
pub proof fn lemma_variable_has_the_language_of_its_repetition(
    rules: Map<char, Ebnf>,
    variable: Variable,
    sub: Ebnf,
    word: Seq<char>,
)
    requires
        stands_for_repetition(rules, variable, sub),
    ensures
        in_language(rules, Ebnf::Variable(variable), word) <==> in_language(
            rules,
            Ebnf::RepetitionZero(Box::new(sub)),
            word,
        ),
{
    let repetition = Ebnf::RepetitionZero(Box::new(sub));
    if in_language(rules, Ebnf::Variable(variable), word) {
        let depth = choose|depth: nat| generates(rules, Ebnf::Variable(variable), word, depth);
        lemma_variable_generates_repetitions(rules, variable, sub, word, depth);
        assert(generates(rules, repetition, word, depth));
    }
    if in_language(rules, repetition, word) {
        let depth = choose|depth: nat| generates(rules, repetition, word, depth);
        lemma_repetitions_are_generated_by_variable(rules, variable, sub, word, depth);
        assert(generates(rules, Ebnf::Variable(variable), word, depth + word.len() + 1));
    }
}

/// A production that is repeated one or more times has the language of the
/// sequence of the production and its repetition zero or more times.
pub proof fn lemma_one_or_more_has_the_language_of_one_then_zero_or_more(
    rules: Map<char, Ebnf>,
    sub: Ebnf,
    word: Seq<char>,
)
    ensures
        in_language(rules, Ebnf::RepetitionOne(Box::new(sub)), word) <==> in_language(
            rules,
            Ebnf::Sequence(seq![sub, Ebnf::RepetitionZero(Box::new(sub))]),
            word,
        ),
{
    let repeated = Ebnf::RepetitionOne(Box::new(sub));
    let spelled_out = Ebnf::Sequence(seq![sub, Ebnf::RepetitionZero(Box::new(sub))]);
    if in_language(rules, repeated, word) {
        let depth = choose|depth: nat| generates(rules, repeated, word, depth);
        lemma_one_or_more_generates_one_then_zero_or_more(rules, sub, word, depth);
        assert(generates(rules, spelled_out, word, depth));
    }
    if in_language(rules, spelled_out, word) {
        let depth = choose|depth: nat| generates(rules, spelled_out, word, depth);
        lemma_one_or_more_generates_one_then_zero_or_more(rules, sub, word, depth);
        assert(generates(rules, repeated, word, depth));
    }
}

} // verus!
