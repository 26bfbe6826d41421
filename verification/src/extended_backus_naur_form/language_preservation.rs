//! Rewriting keeps the language: under the rewritten rules every variable
//! of a grammar generates the words that it generated before.

use crate::extended_backus_naur_form::conversion_laws::meets;
use crate::extended_backus_naur_form::ebnf_element::Ebnf;
use crate::extended_backus_naur_form::language::{
    generates,
    generates_in_turn,
    generates_repeatedly,
    in_language,
    lemma_choice_generates,
    lemma_generates_in_turn_with_more_depth,
    lemma_generates_repeatedly_with_more_depth,
    lemma_generates_with_more_depth,
    lemma_pair_in_turn,
    lemma_repetitions_are_generated_by_variable,
    lemma_variable_generates_repetitions,
    stands_for_repetition,
};
use crate::model::Variable;
use vstd::prelude::*;

verus! {

/// The production that `el` becomes when each repetition that rewriting
/// comes upon is replaced by its variable in `replacers`: a zero-or-more
/// repetition by the variable alone, a one-or-more repetition by its
/// rewritten operand followed by the variable.
pub open spec fn rewritten(el: Ebnf, replacers: Map<Ebnf, Variable>) -> Ebnf
    decreases el,
{
    match el {
        Ebnf::Epsilon => Ebnf::Epsilon,
        Ebnf::Terminal(terminal) => Ebnf::Terminal(terminal),
        Ebnf::Variable(variable) => Ebnf::Variable(variable),
        Ebnf::Optional(sub) => Ebnf::Optional(Box::new(rewritten(*sub, replacers))),
        Ebnf::RepetitionZero(_) => Ebnf::Variable(replacers[el]),
        Ebnf::RepetitionOne(sub) => Ebnf::Sequence(
            seq![
                rewritten(*sub, replacers),
                Ebnf::Variable(replacers[Ebnf::RepetitionZero(sub)]),
            ],
        ),
        Ebnf::Alternative(children) => Ebnf::Alternative(
            Seq::new(
                children.len(),
                |i: int|
                    if 0 <= i < children.len() {
                        rewritten(children[i], replacers)
                    } else {
                        Ebnf::Epsilon
                    },
            ),
        ),
        Ebnf::Sequence(children) => Ebnf::Sequence(
            Seq::new(
                children.len(),
                |i: int|
                    if 0 <= i < children.len() {
                        rewritten(children[i], replacers)
                    } else {
                        Ebnf::Epsilon
                    },
            ),
        ),
    }
}

/// The productions of `children`, each rewritten, in their order.
pub open spec fn rewritten_all(children: Seq<Ebnf>, replacers: Map<Ebnf, Variable>) -> Seq<Ebnf> {
    Seq::new(children.len(), |i: int| rewritten(children[i], replacers))
}

/// Whether every repetition that rewriting `el` comes upon has a variable
/// in `replacers`.
pub open spec fn covers(replacers: Map<Ebnf, Variable>, el: Ebnf) -> bool {
    forall|key: Ebnf| meets(el, key) ==> #[trigger] replacers.contains_key(key)
}

/// Whether every variable that occurs in `el` is one of `symbols`.
pub open spec fn over(symbols: Set<char>, el: Ebnf) -> bool {
    forall|symbol: char| el.mentions(symbol) ==> #[trigger] symbols.contains(symbol)
}

/// A grammar and what a finished rewriting made of it: the rules before,
/// the rules after, the variable of each repetition that was replaced, and
/// the symbols that the grammar used before.
pub struct Rewriting {
    pub source: Map<char, Ebnf>,
    pub plain: Map<char, Ebnf>,
    pub replacers: Map<Ebnf, Variable>,
    pub symbols: Set<char>,
}

impl Rewriting {
    /// Whether `el` is a production of the grammar before: over its
    /// symbols, and with a variable for each repetition that rewriting it
    /// comes upon.
    pub open spec fn admits(self, el: Ebnf) -> bool {
        covers(self.replacers, el) && over(self.symbols, el)
    }

    /// Whether the rules after are the rewriting of the rules before:
    ///
    /// - each variable that had a rule has the rewritten rule;
    /// - each variable of a repetition is none of the old symbols and has
    ///   the rule of its repetition, with the operand rewritten;
    /// - an old symbol that had no rule has none.
    pub open spec fn is_finished(self) -> bool {
        &&& forall|symbol: char| #[trigger]
            self.source.contains_key(symbol) ==> {
                &&& self.symbols.contains(symbol)
                &&& self.admits(self.source[symbol])
                &&& self.plain.contains_key(symbol)
                &&& self.plain[symbol] == rewritten(self.source[symbol], self.replacers)
            }
        &&& forall|key: Ebnf| #[trigger]
            self.replacers.contains_key(key) ==> {
                &&& key is RepetitionZero
                &&& self.admits(*key->RepetitionZero_0)
                &&& !self.symbols.contains(self.replacers[key].0)
                &&& stands_for_repetition(
                    self.plain,
                    self.replacers[key],
                    rewritten(*key->RepetitionZero_0, self.replacers),
                )
            }
        &&& forall|symbol: char|
            self.symbols.contains(symbol) && !self.source.contains_key(symbol)
                ==> !#[trigger] self.plain.contains_key(symbol)
    }
}

/// Every occurrence in one of the first `count` children is an occurrence
/// among them.
pub proof fn lemma_occurrences_of_child(children: Seq<Ebnf>, count: nat, child: int, symbol: char)
    requires
        0 <= child < count <= children.len(),
        children[child].mentions(symbol),
    ensures
        Ebnf::occurrences_among(children, count).contains(symbol),
    decreases count,
{
    let earlier = Ebnf::occurrences_among(children, (count - 1) as nat);
    let last = children[count - 1].occurrences();
    if child < count - 1 {
        lemma_occurrences_of_child(children, (count - 1) as nat, child, symbol);
        let k = choose|k: int| 0 <= k < earlier.len() && earlier[k] == symbol;
        assert((earlier + last)[k] == symbol);
    } else {
        let k = choose|k: int| 0 <= k < last.len() && last[k] == symbol;
        assert((earlier + last)[earlier.len() + k] == symbol);
    }
}

/// What a rewriting admits, it admits part by part.
pub proof fn lemma_parts_are_admitted(rewriting: Rewriting, el: Ebnf)
    requires
        rewriting.admits(el),
    ensures
        match el {
            Ebnf::Optional(sub) => rewriting.admits(*sub),
            Ebnf::RepetitionOne(sub) => {
                &&& rewriting.admits(*sub)
                &&& rewriting.replacers.contains_key(Ebnf::RepetitionZero(sub))
            },
            Ebnf::RepetitionZero(_) => rewriting.replacers.contains_key(el),
            Ebnf::Alternative(children) => forall|i: int|
                0 <= i < children.len() ==> rewriting.admits(#[trigger] children[i]),
            Ebnf::Sequence(children) => forall|i: int|
                0 <= i < children.len() ==> rewriting.admits(#[trigger] children[i]),
            _ => true,
        },
{
    match el {
        Ebnf::Optional(sub) => {
            assert forall|key: Ebnf| meets(*sub, key) implies rewriting.replacers.contains_key(
                key,
            ) by {
                assert(meets(el, key));
            }
            assert(el.occurrences() == sub.occurrences());
        },
        Ebnf::RepetitionOne(sub) => {
            assert forall|key: Ebnf| meets(*sub, key) implies rewriting.replacers.contains_key(
                key,
            ) by {
                assert(meets(el, key));
            }
            assert(el.occurrences() == sub.occurrences());
            assert(meets(el, Ebnf::RepetitionZero(sub)));
        },
        Ebnf::RepetitionZero(_) => {
            assert(meets(el, el));
        },
        Ebnf::Alternative(children) => {
            assert forall|i: int| 0 <= i < children.len() implies rewriting.admits(
                #[trigger] children[i],
            ) by {
                assert forall|key: Ebnf| meets(children[i], key) implies #[trigger]
                    rewriting.replacers.contains_key(key) by {
                    assert(meets(el, key));
                }
                assert forall|symbol: char| children[i].mentions(symbol) implies #[trigger]
                    rewriting.symbols.contains(symbol) by {
                    lemma_occurrences_of_child(children, children.len(), i, symbol);
                    assert(el.mentions(symbol));
                }
            }
        },
        Ebnf::Sequence(children) => {
            assert forall|i: int| 0 <= i < children.len() implies rewriting.admits(
                #[trigger] children[i],
            ) by {
                assert forall|key: Ebnf| meets(children[i], key) implies #[trigger]
                    rewriting.replacers.contains_key(key) by {
                    assert(meets(el, key));
                }
                assert forall|symbol: char| children[i].mentions(symbol) implies #[trigger]
                    rewriting.symbols.contains(symbol) by {
                    lemma_occurrences_of_child(children, children.len(), i, symbol);
                    assert(el.mentions(symbol));
                }
            }
        },
        _ => {},
    }
}

/// The greater of two depths.
pub open spec fn deeper(first: nat, second: nat) -> nat {
    if first >= second {
        first
    } else {
        second
    }
}

/// What a production generated before, its rewriting generates after.
pub proof fn lemma_kept_by_rewriting(rewriting: Rewriting, el: Ebnf, word: Seq<char>, depth: nat)
    requires
        rewriting.is_finished(),
        rewriting.admits(el),
        generates(rewriting.source, el, word, depth),
    ensures
        in_language(rewriting.plain, rewritten(el, rewriting.replacers), word),
    decreases depth, el, 0nat,
{
    let plain = rewriting.plain;
    let replacers = rewriting.replacers;
    let target = rewritten(el, replacers);
    lemma_parts_are_admitted(rewriting, el);
    match el {
        Ebnf::Epsilon => {
            assert(generates(plain, target, word, 0));
        },
        Ebnf::Terminal(_) => {
            assert(generates(plain, target, word, 0));
        },
        Ebnf::Variable(variable) => {
            let rule = rewriting.source[variable.0];
            lemma_kept_by_rewriting(rewriting, rule, word, (depth - 1) as nat);
            let reached = choose|reached: nat|
                generates(plain, rewritten(rule, replacers), word, reached);
            assert(plain[variable.0] == rewritten(rule, replacers));
            assert(generates(plain, target, word, reached + 1));
        },
        Ebnf::Optional(sub) => {
            if word.len() == 0 {
                assert(generates(plain, target, word, 0));
            } else {
                lemma_kept_by_rewriting(rewriting, *sub, word, depth);
                let reached = choose|reached: nat|
                    generates(plain, rewritten(*sub, replacers), word, reached);
                assert(generates(plain, target, word, reached));
            }
        },
        Ebnf::Alternative(children) => {
            let i = choose|i: int|
                0 <= i < children.len() && generates(
                    rewriting.source,
                    #[trigger] children[i],
                    word,
                    depth,
                );
            lemma_kept_by_rewriting(rewriting, children[i], word, depth);
            let reached = choose|reached: nat|
                generates(plain, rewritten(children[i], replacers), word, reached);
            let images = rewritten_all(children, replacers);
            assert(target->Alternative_0 =~= images);
            assert(images[i] == rewritten(children[i], replacers));
            lemma_choice_generates(plain, images, i, word, reached);
        },
        Ebnf::Sequence(children) => {
            lemma_kept_in_turn(rewriting, children, children.len(), word, depth);
            let images = rewritten_all(children, replacers);
            let reached = choose|reached: nat|
                generates_in_turn(plain, images, children.len(), word, reached);
            assert(target->Sequence_0 =~= images);
            assert(generates(plain, target, word, reached));
        },
        Ebnf::RepetitionZero(sub) => {
            assert(el->RepetitionZero_0 == sub);
            lemma_kept_repeatedly(rewriting, *sub, word, depth);
            let image = rewritten(*sub, replacers);
            let reached = choose|reached: nat| generates_repeatedly(plain, image, word, reached);
            lemma_repetitions_are_generated_by_variable(
                plain,
                replacers[el],
                image,
                word,
                reached,
            );
        },
        Ebnf::RepetitionOne(sub) => {
            let key = Ebnf::RepetitionZero(sub);
            assert(key->RepetitionZero_0 == sub);
            let cut = choose|cut: int|
                0 <= cut <= word.len() && generates(
                    rewriting.source,
                    *sub,
                    #[trigger] word.subrange(0, cut),
                    depth,
                ) && generates_repeatedly(
                    rewriting.source,
                    *sub,
                    word.subrange(cut, word.len() as int),
                    depth,
                );
            let front = word.subrange(0, cut);
            let back = word.subrange(cut, word.len() as int);
            let image = rewritten(*sub, replacers);
            let variable = Ebnf::Variable(replacers[key]);
            lemma_kept_by_rewriting(rewriting, *sub, front, depth);
            lemma_kept_repeatedly(rewriting, *sub, back, depth);
            let first = choose|reached: nat| generates(plain, image, front, reached);
            let second = choose|reached: nat| generates_repeatedly(plain, image, back, reached);
            lemma_repetitions_are_generated_by_variable(
                plain,
                replacers[key],
                image,
                back,
                second,
            );
            let third = second + back.len() + 1;
            let reached = deeper(first, third);
            lemma_generates_with_more_depth(plain, image, front, first, reached);
            lemma_generates_with_more_depth(plain, variable, back, third, reached);
            lemma_pair_in_turn(plain, image, variable, word, reached);
            assert(generates(plain, target, word, reached));
        },
    }
}

/// What a list of productions generated in turn before, their rewritings
/// generate in turn after.
pub proof fn lemma_kept_in_turn(
    rewriting: Rewriting,
    children: Seq<Ebnf>,
    count: nat,
    word: Seq<char>,
    depth: nat,
)
    requires
        rewriting.is_finished(),
        forall|i: int| 0 <= i < children.len() ==> rewriting.admits(#[trigger] children[i]),
        count <= children.len(),
        generates_in_turn(rewriting.source, children, count, word, depth),
    ensures
        exists|reached: nat|
            generates_in_turn(
                rewriting.plain,
                rewritten_all(children, rewriting.replacers),
                count,
                word,
                reached,
            ),
    decreases depth, children, count,
{
    let plain = rewriting.plain;
    let images = rewritten_all(children, rewriting.replacers);
    if count == 0 {
        assert(generates_in_turn(plain, images, 0, word, 0));
    } else {
        let cut = choose|cut: int|
            0 <= cut <= word.len() && generates_in_turn(
                rewriting.source,
                children,
                (count - 1) as nat,
                #[trigger] word.subrange(0, cut),
                depth,
            ) && generates(
                rewriting.source,
                children[count - 1],
                word.subrange(cut, word.len() as int),
                depth,
            );
        let front = word.subrange(0, cut);
        let back = word.subrange(cut, word.len() as int);
        let fewer = (count - 1) as nat;
        lemma_kept_in_turn(rewriting, children, fewer, front, depth);
        lemma_kept_by_rewriting(rewriting, children[count - 1], back, depth);
        let first = choose|reached: nat| generates_in_turn(plain, images, fewer, front, reached);
        let image = rewritten(children[count - 1], rewriting.replacers);
        let second = choose|reached: nat| generates(plain, image, back, reached);
        let reached = deeper(first, second);
        lemma_generates_in_turn_with_more_depth(plain, images, fewer, front, first, reached);
        lemma_generates_with_more_depth(plain, images[count - 1], back, second, reached);
        assert(generates_in_turn(plain, images, count, word, reached));
    }
}

/// What a production generated repeatedly before, its rewriting generates
/// repeatedly after.
pub proof fn lemma_kept_repeatedly(rewriting: Rewriting, el: Ebnf, word: Seq<char>, depth: nat)
    requires
        rewriting.is_finished(),
        rewriting.admits(el),
        generates_repeatedly(rewriting.source, el, word, depth),
    ensures
        exists|reached: nat|
            generates_repeatedly(
                rewriting.plain,
                rewritten(el, rewriting.replacers),
                word,
                reached,
            ),
    decreases depth, el, word.len(),
{
    let plain = rewriting.plain;
    let image = rewritten(el, rewriting.replacers);
    if word.len() == 0 {
        assert(generates_repeatedly(plain, image, word, 0));
    } else {
        let cut = choose|cut: int|
            0 < cut <= word.len() && generates(
                rewriting.source,
                el,
                #[trigger] word.subrange(0, cut),
                depth,
            ) && generates_repeatedly(
                rewriting.source,
                el,
                word.subrange(cut, word.len() as int),
                depth,
            );
        let front = word.subrange(0, cut);
        let back = word.subrange(cut, word.len() as int);
        lemma_kept_by_rewriting(rewriting, el, front, depth);
        lemma_kept_repeatedly(rewriting, el, back, depth);
        let first = choose|reached: nat| generates(plain, image, front, reached);
        let second = choose|reached: nat| generates_repeatedly(plain, image, back, reached);
        let reached = deeper(first, second);
        lemma_generates_with_more_depth(plain, image, front, first, reached);
        lemma_generates_repeatedly_with_more_depth(plain, image, back, second, reached);
        assert(generates_repeatedly(plain, image, word, reached));
    }
}

/// What the rewriting of a production generates after, the production
/// generated before.
pub proof fn lemma_nothing_added_by_rewriting(
    rewriting: Rewriting,
    el: Ebnf,
    word: Seq<char>,
    depth: nat,
)
    requires
        rewriting.is_finished(),
        rewriting.admits(el),
        generates(rewriting.plain, rewritten(el, rewriting.replacers), word, depth),
    ensures
        in_language(rewriting.source, el, word),
    decreases depth, el, 0nat,
{
    let plain = rewriting.plain;
    let source = rewriting.source;
    let replacers = rewriting.replacers;
    let target = rewritten(el, replacers);
    lemma_parts_are_admitted(rewriting, el);
    match el {
        Ebnf::Epsilon => {
            assert(generates(source, el, word, 0));
        },
        Ebnf::Terminal(_) => {
            assert(generates(source, el, word, 0));
        },
        Ebnf::Variable(variable) => {
            assert(el.occurrences()[0] == variable.0);
            assert(el.mentions(variable.0));
            assert(rewriting.symbols.contains(variable.0));
            assert(plain.contains_key(variable.0));
            assert(source.contains_key(variable.0));
            let rule = source[variable.0];
            lemma_nothing_added_by_rewriting(rewriting, rule, word, (depth - 1) as nat);
            let reached = choose|reached: nat| generates(source, rule, word, reached);
            assert(generates(source, el, word, reached + 1));
        },
        Ebnf::Optional(sub) => {
            if word.len() == 0 {
                assert(generates(source, el, word, 0));
            } else {
                lemma_nothing_added_by_rewriting(rewriting, *sub, word, depth);
                let reached = choose|reached: nat| generates(source, *sub, word, reached);
                assert(generates(source, el, word, reached));
            }
        },
        Ebnf::Alternative(children) => {
            let images = rewritten_all(children, replacers);
            assert(target->Alternative_0 =~= images);
            let i = choose|i: int|
                0 <= i < images.len() && generates(plain, #[trigger] images[i], word, depth);
            assert(images[i] == rewritten(children[i], replacers));
            lemma_nothing_added_by_rewriting(rewriting, children[i], word, depth);
            let reached = choose|reached: nat| generates(source, children[i], word, reached);
            lemma_choice_generates(source, children, i, word, reached);
        },
        Ebnf::Sequence(children) => {
            let images = rewritten_all(children, replacers);
            assert(target->Sequence_0 =~= images);
            lemma_nothing_added_in_turn(rewriting, children, children.len(), word, depth);
            let reached = choose|reached: nat|
                generates_in_turn(source, children, children.len(), word, reached);
            assert(generates(source, el, word, reached));
        },
        Ebnf::RepetitionZero(sub) => {
            assert(el->RepetitionZero_0 == sub);
            let image = rewritten(*sub, replacers);
            lemma_variable_generates_repetitions(plain, replacers[el], image, word, depth);
            lemma_nothing_added_repeatedly(rewriting, *sub, word, depth);
            let reached = choose|reached: nat| generates_repeatedly(source, *sub, word, reached);
            assert(generates(source, el, word, reached));
        },
        Ebnf::RepetitionOne(sub) => {
            let key = Ebnf::RepetitionZero(sub);
            assert(key->RepetitionZero_0 == sub);
            let image = rewritten(*sub, replacers);
            let variable = Ebnf::Variable(replacers[key]);
            lemma_pair_in_turn(plain, image, variable, word, depth);
            let cut = choose|cut: int|
                0 <= cut <= word.len() && generates(
                    plain,
                    image,
                    #[trigger] word.subrange(0, cut),
                    depth,
                ) && generates(plain, variable, word.subrange(cut, word.len() as int), depth);
            let front = word.subrange(0, cut);
            let back = word.subrange(cut, word.len() as int);
            lemma_nothing_added_by_rewriting(rewriting, *sub, front, depth);
            lemma_variable_generates_repetitions(plain, replacers[key], image, back, depth);
            lemma_nothing_added_repeatedly(rewriting, *sub, back, depth);
            let first = choose|reached: nat| generates(source, *sub, front, reached);
            let second = choose|reached: nat| generates_repeatedly(source, *sub, back, reached);
            let reached = deeper(first, second);
            lemma_generates_with_more_depth(source, *sub, front, first, reached);
            lemma_generates_repeatedly_with_more_depth(source, *sub, back, second, reached);
            assert(generates(source, el, word, reached));
        },
    }
}

/// What the rewritings of a list of productions generate in turn after,
/// the productions generated in turn before.
pub proof fn lemma_nothing_added_in_turn(
    rewriting: Rewriting,
    children: Seq<Ebnf>,
    count: nat,
    word: Seq<char>,
    depth: nat,
)
    requires
        rewriting.is_finished(),
        forall|i: int| 0 <= i < children.len() ==> rewriting.admits(#[trigger] children[i]),
        count <= children.len(),
        generates_in_turn(
            rewriting.plain,
            rewritten_all(children, rewriting.replacers),
            count,
            word,
            depth,
        ),
    ensures
        exists|reached: nat| generates_in_turn(rewriting.source, children, count, word, reached),
    decreases depth, children, count,
{
    let source = rewriting.source;
    let images = rewritten_all(children, rewriting.replacers);
    if count == 0 {
        assert(generates_in_turn(source, children, 0, word, 0));
    } else {
        let fewer = (count - 1) as nat;
        let cut = choose|cut: int|
            0 <= cut <= word.len() && generates_in_turn(
                rewriting.plain,
                images,
                fewer,
                #[trigger] word.subrange(0, cut),
                depth,
            ) && generates(
                rewriting.plain,
                images[count - 1],
                word.subrange(cut, word.len() as int),
                depth,
            );
        let front = word.subrange(0, cut);
        let back = word.subrange(cut, word.len() as int);
        let last = children[count - 1];
        assert(images[count - 1] == rewritten(last, rewriting.replacers));
        lemma_nothing_added_in_turn(rewriting, children, fewer, front, depth);
        lemma_nothing_added_by_rewriting(rewriting, last, back, depth);
        let first = choose|reached: nat| generates_in_turn(source, children, fewer, front, reached);
        let second = choose|reached: nat| generates(source, last, back, reached);
        let reached = deeper(first, second);
        lemma_generates_in_turn_with_more_depth(source, children, fewer, front, first, reached);
        lemma_generates_with_more_depth(source, last, back, second, reached);
        assert(generates_in_turn(source, children, count, word, reached));
    }
}

/// What the rewriting of a production generates repeatedly after, the
/// production generated repeatedly before.
pub proof fn lemma_nothing_added_repeatedly(
    rewriting: Rewriting,
    el: Ebnf,
    word: Seq<char>,
    depth: nat,
)
    requires
        rewriting.is_finished(),
        rewriting.admits(el),
        generates_repeatedly(rewriting.plain, rewritten(el, rewriting.replacers), word, depth),
    ensures
        exists|reached: nat| generates_repeatedly(rewriting.source, el, word, reached),
    decreases depth, el, word.len(),
{
    let source = rewriting.source;
    let image = rewritten(el, rewriting.replacers);
    if word.len() == 0 {
        assert(generates_repeatedly(source, el, word, 0));
    } else {
        let cut = choose|cut: int|
            0 < cut <= word.len() && generates(
                rewriting.plain,
                image,
                #[trigger] word.subrange(0, cut),
                depth,
            ) && generates_repeatedly(
                rewriting.plain,
                image,
                word.subrange(cut, word.len() as int),
                depth,
            );
        let front = word.subrange(0, cut);
        let back = word.subrange(cut, word.len() as int);
        lemma_nothing_added_by_rewriting(rewriting, el, front, depth);
        lemma_nothing_added_repeatedly(rewriting, el, back, depth);
        let first = choose|reached: nat| generates(source, el, front, reached);
        let second = choose|reached: nat| generates_repeatedly(source, el, back, reached);
        let reached = deeper(first, second);
        lemma_generates_with_more_depth(source, el, front, first, reached);
        lemma_generates_repeatedly_with_more_depth(source, el, back, second, reached);
        assert(generates_repeatedly(source, el, word, reached));
    }
}

/// Under the rules of a finished rewriting, a production of the grammar
/// and its rewriting have the same language.
pub proof fn lemma_rewriting_keeps_the_language(rewriting: Rewriting, el: Ebnf, word: Seq<char>)
    requires
        rewriting.is_finished(),
        rewriting.admits(el),
    ensures
        in_language(rewriting.source, el, word) <==> in_language(
            rewriting.plain,
            rewritten(el, rewriting.replacers),
            word,
        ),
{
    if in_language(rewriting.source, el, word) {
        let depth = choose|depth: nat| generates(rewriting.source, el, word, depth);
        lemma_kept_by_rewriting(rewriting, el, word, depth);
    }
    if in_language(rewriting.plain, rewritten(el, rewriting.replacers), word) {
        let depth = choose|depth: nat|
            generates(rewriting.plain, rewritten(el, rewriting.replacers), word, depth);
        lemma_nothing_added_by_rewriting(rewriting, el, word, depth);
    }
}

/// Under the rules of a finished rewriting, every variable of the grammar
/// generates the words that it generated before, and no others.
pub proof fn lemma_variables_keep_their_language(
    rewriting: Rewriting,
    variable: Variable,
    word: Seq<char>,
)
    requires
        rewriting.is_finished(),
        rewriting.symbols.contains(variable.0),
    ensures
        in_language(rewriting.source, Ebnf::Variable(variable), word) <==> in_language(
            rewriting.plain,
            Ebnf::Variable(variable),
            word,
        ),
{
    let el = Ebnf::Variable(variable);
    assert(rewriting.admits(el)) by {
        assert forall|symbol: char| el.mentions(symbol) implies #[trigger]
            rewriting.symbols.contains(symbol) by {
            let k = choose|k: int| 0 <= k < el.occurrences().len() && el.occurrences()[k] == symbol;
            assert(el.occurrences() == seq![variable.0]);
        }
    }
    lemma_rewriting_keeps_the_language(rewriting, el, word);
}

} // verus!
