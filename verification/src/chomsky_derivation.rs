//! What the membership test decides: derivation trees of a grammar in
//! Chomsky normal form, and the language of the grammar read as a set of
//! rules.

use crate::chomsky_normal_form::ChomskyGrammar;
use crate::chomsky_production::ChomskyProduction;
use crate::extended_backus_naur_form::ebnf_element::Ebnf;
use crate::extended_backus_naur_form::language::{
    generates,
    in_language,
    lemma_choice_generates,
    lemma_generates_with_more_depth,
    lemma_pair_in_turn,
};
use crate::model::{Terminal, Variable};
use vstd::prelude::*;

verus! {

/// A derivation tree: a variable over the terminal that it produces, or a
/// variable over the trees of the two variables that it produces.
pub enum Derivation {
    Leaf { variable: char, terminal: char },
    Node { variable: char, left: Box<Derivation>, right: Box<Derivation> },
}

impl Derivation {
    /// The variable at the root of this tree.
    pub open spec fn root(self) -> char {
        match self {
            Derivation::Leaf { variable, .. } => variable,
            Derivation::Node { variable, .. } => variable,
        }
    }

    /// The word that this tree derives: its terminals from left to right.
    pub open spec fn word(self) -> Seq<char>
        decreases self,
    {
        match self {
            Derivation::Leaf { terminal, .. } => seq![terminal],
            Derivation::Node { left, right, .. } => left.word() + right.word(),
        }
    }

    /// Whether every step of this tree is a production of `grammar`.
    pub open spec fn follows(self, grammar: &ChomskyGrammar) -> bool
        decreases self,
    {
        match self {
            Derivation::Leaf { variable, terminal } => grammar.has_production(
                variable,
                ChomskyProduction::Terminal(terminal),
            ),
            Derivation::Node { variable, left, right } => {
                &&& grammar.has_production(
                    variable,
                    ChomskyProduction::Sequence(Variable(left.root()), Variable(right.root())),
                )
                &&& left.follows(grammar)
                &&& right.follows(grammar)
            },
        }
    }

    /// A derivation tree derives a word of at least one symbol.
    pub proof fn lemma_word_is_not_empty(self)
        ensures
            self.word().len() >= 1,
        decreases self,
    {
        match self {
            Derivation::Leaf { .. } => {},
            Derivation::Node { left, right, .. } => {
                left.lemma_word_is_not_empty();
                right.lemma_word_is_not_empty();
            },
        }
    }

    /// The word of a derivation tree of `grammar` can be derived from its
    /// root.
    pub proof fn lemma_tree_derives_its_word(self, grammar: &ChomskyGrammar)
        requires
            self.follows(grammar),
        ensures
            grammar.derives(self.root(), self.word()),
        decreases self,
    {
        match self {
            Derivation::Leaf { .. } => {},
            Derivation::Node { variable, left, right } => {
                left.lemma_word_is_not_empty();
                right.lemma_word_is_not_empty();
                left.lemma_tree_derives_its_word(grammar);
                right.lemma_tree_derives_its_word(grammar);
                let word = self.word();
                let split = left.word().len() as int;
                assert(word.subrange(0, split) =~= left.word());
                assert(word.subrange(split, word.len() as int) =~= right.word());
                assert(0 < split < word.len());
                assert(grammar.has_production(
                    variable,
                    ChomskyProduction::Sequence(Variable(left.root()), Variable(right.root())),
                ));
                assert(grammar.derives(left.root(), word.subrange(0, split)));
            },
        }
    }
}

/// Whether `tree` is a derivation tree of `grammar` that derives `word` from
/// `variable`.
pub open spec fn is_derivation(
    tree: Derivation,
    grammar: &ChomskyGrammar,
    variable: char,
    word: Seq<char>,
) -> bool {
    tree.follows(grammar) && tree.root() == variable && tree.word() == word
}

/// A word that can be derived from a variable has a derivation tree with
/// that variable at its root.
pub proof fn lemma_derived_word_has_a_tree(grammar: &ChomskyGrammar, variable: char, word: Seq<char>)
    requires
        grammar.derives(variable, word),
    ensures
        exists|tree: Derivation| is_derivation(tree, grammar, variable, word),
    decreases word.len(),
{
    if word.len() == 1 {
        vstd::utf8::char_u32_cast(word[0], word[0] as u32);
        let tree = Derivation::Leaf { variable, terminal: word[0] };
        assert(tree.word() =~= word);
        assert(is_derivation(tree, grammar, variable, word));
    } else {
        let (split, first, second) = choose|split: int, first: char, second: char|
            #![trigger
                grammar.has_production(
                    variable,
                    ChomskyProduction::Sequence(Variable(first), Variable(second)),
                ),
                word.subrange(0, split),
            ]
            0 < split < word.len() && grammar.has_production(
                variable,
                ChomskyProduction::Sequence(Variable(first), Variable(second)),
            ) && grammar.derives(first, word.subrange(0, split)) && grammar.derives(
                second,
                word.subrange(split, word.len() as int),
            );
        let front = word.subrange(0, split);
        let back = word.subrange(split, word.len() as int);
        lemma_derived_word_has_a_tree(grammar, first, front);
        lemma_derived_word_has_a_tree(grammar, second, back);
        let left = choose|tree: Derivation| is_derivation(tree, grammar, first, front);
        let right = choose|tree: Derivation| is_derivation(tree, grammar, second, back);
        let tree = Derivation::Node { variable, left: Box::new(left), right: Box::new(right) };
        assert(tree.word() =~= word);
        assert(is_derivation(tree, grammar, variable, word));
    }
}

/// A word can be derived from a variable exactly when it has a derivation
/// tree with that variable at its root.
pub proof fn lemma_derives_means_has_a_tree(grammar: &ChomskyGrammar, variable: char, word: Seq<char>)
    ensures
        grammar.derives(variable, word) <==> exists|tree: Derivation|
            is_derivation(tree, grammar, variable, word),
{
    if grammar.derives(variable, word) {
        lemma_derived_word_has_a_tree(grammar, variable, word);
    }
    if exists|tree: Derivation| is_derivation(tree, grammar, variable, word) {
        let tree = choose|tree: Derivation| is_derivation(tree, grammar, variable, word);
        tree.lemma_tree_derives_its_word(grammar);
    }
}

/// The production `production` in the extended algebra: a terminal, or a
/// sequence of two variables.
pub open spec fn as_extended(production: ChomskyProduction) -> Ebnf {
    match production {
        ChomskyProduction::Terminal(symbol) => Ebnf::Terminal(Terminal(symbol)),
        ChomskyProduction::Sequence(first, second) => Ebnf::Sequence(
            seq![Ebnf::Variable(first), Ebnf::Variable(second)],
        ),
    }
}

/// The productions `productions` in the extended algebra, in their order.
pub open spec fn all_as_extended(productions: Seq<ChomskyProduction>) -> Seq<Ebnf> {
    Seq::new(productions.len(), |i: int| as_extended(productions[i]))
}

/// The rules of `grammar` in the extended algebra: each variable with the
/// alternative over its productions.
pub open spec fn extended_rules(grammar: &ChomskyGrammar) -> Map<char, Ebnf> {
    Map::new(
        |variable: char| grammar.rules().contains_key(variable),
        |variable: char| Ebnf::Alternative(all_as_extended(grammar.rules()[variable])),
    )
}

/// What can be derived from a variable is generated by it under the rules
/// of the grammar, in a derivation no deeper than the word is long.
pub proof fn lemma_derived_word_is_generated(
    grammar: &ChomskyGrammar,
    variable: char,
    word: Seq<char>,
)
    requires
        grammar.derives(variable, word),
    ensures
        generates(extended_rules(grammar), Ebnf::Variable(Variable(variable)), word, word.len()),
    decreases word.len(),
{
    let rules = extended_rules(grammar);
    let productions = grammar.rules()[variable];
    let choices = all_as_extended(productions);
    let below = (word.len() - 1) as nat;
    if word.len() == 1 {
        let production = ChomskyProduction::Terminal(word[0]);
        let i = choose|i: int| 0 <= i < productions.len() && productions[i] == production;
        assert(choices[i] == Ebnf::Terminal(Terminal(word[0])));
        assert(word =~= seq![word[0]]);
        assert(generates(rules, choices[i], word, below));
        lemma_choice_generates(rules, choices, i, word, below);
    } else {
        let (split, first, second) = choose|split: int, first: char, second: char|
            #![trigger
                grammar.has_production(
                    variable,
                    ChomskyProduction::Sequence(Variable(first), Variable(second)),
                ),
                word.subrange(0, split),
            ]
            0 < split < word.len() && grammar.has_production(
                variable,
                ChomskyProduction::Sequence(Variable(first), Variable(second)),
            ) && grammar.derives(first, word.subrange(0, split)) && grammar.derives(
                second,
                word.subrange(split, word.len() as int),
            );
        let front = word.subrange(0, split);
        let back = word.subrange(split, word.len() as int);
        let production = ChomskyProduction::Sequence(Variable(first), Variable(second));
        let i = choose|i: int| 0 <= i < productions.len() && productions[i] == production;
        let left = Ebnf::Variable(Variable(first));
        let right = Ebnf::Variable(Variable(second));
        assert(choices[i] == Ebnf::Sequence(seq![left, right]));
        lemma_derived_word_is_generated(grammar, first, front);
        lemma_derived_word_is_generated(grammar, second, back);
        lemma_generates_with_more_depth(rules, left, front, front.len(), below);
        lemma_generates_with_more_depth(rules, right, back, back.len(), below);
        lemma_pair_in_turn(rules, left, right, word, below);
        lemma_choice_generates(rules, choices, i, word, below);
    }
    assert(rules[variable] == Ebnf::Alternative(choices));
}

/// What a variable generates under the rules of the grammar can be derived
/// from it.
pub proof fn lemma_generated_word_is_derived(
    grammar: &ChomskyGrammar,
    variable: char,
    word: Seq<char>,
    depth: nat,
)
    requires
        generates(extended_rules(grammar), Ebnf::Variable(Variable(variable)), word, depth),
    ensures
        grammar.derives(variable, word),
    decreases depth,
{
    let rules = extended_rules(grammar);
    let productions = grammar.rules()[variable];
    let choices = all_as_extended(productions);
    let below = (depth - 1) as nat;
    assert(rules[variable] == Ebnf::Alternative(choices));
    assert(generates(rules, Ebnf::Alternative(choices), word, below));
    let i = choose|i: int|
        0 <= i < choices.len() && generates(rules, #[trigger] choices[i], word, below);
    assert(choices[i] == as_extended(productions[i]));
    match productions[i] {
        ChomskyProduction::Terminal(symbol) => {
            assert(word == seq![symbol]);
            assert(word.len() == 1 && word[0] == symbol);
            assert(productions.contains(ChomskyProduction::Terminal(word[0])));
        },
        ChomskyProduction::Sequence(first, second) => {
            let left = Ebnf::Variable(first);
            let right = Ebnf::Variable(second);
            lemma_pair_in_turn(rules, left, right, word, below);
            let cut = choose|cut: int|
                0 <= cut <= word.len() && generates(
                    rules,
                    left,
                    #[trigger] word.subrange(0, cut),
                    below,
                ) && generates(rules, right, word.subrange(cut, word.len() as int), below);
            let front = word.subrange(0, cut);
            let back = word.subrange(cut, word.len() as int);
            assert(first == Variable(first.0));
            assert(second == Variable(second.0));
            lemma_generated_word_is_derived(grammar, first.0, front, below);
            lemma_generated_word_is_derived(grammar, second.0, back, below);
            assert(front.len() >= 1);
            assert(back.len() >= 1);
            assert(productions.contains(
                ChomskyProduction::Sequence(Variable(first.0), Variable(second.0)),
            ));
            assert(grammar.has_production(
                variable,
                ChomskyProduction::Sequence(Variable(first.0), Variable(second.0)),
            ));
        },
    }
}

/// A word can be derived from a variable exactly when it belongs to the
/// language of the variable under the rules of the grammar: the membership
/// test decides the language that the rules generate.
pub proof fn lemma_derives_means_in_language(
    grammar: &ChomskyGrammar,
    variable: char,
    word: Seq<char>,
)
    ensures
        grammar.derives(variable, word) <==> in_language(
            extended_rules(grammar),
            Ebnf::Variable(Variable(variable)),
            word,
        ),
{
    let el = Ebnf::Variable(Variable(variable));
    if grammar.derives(variable, word) {
        lemma_derived_word_is_generated(grammar, variable, word);
    }
    if in_language(extended_rules(grammar), el, word) {
        let depth = choose|depth: nat| generates(extended_rules(grammar), el, word, depth);
        lemma_generated_word_is_derived(grammar, variable, word, depth);
    }
}

} // verus!
