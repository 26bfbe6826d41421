//! Grammars in Chomsky normal form and the CYK membership test.

use crate::chomsky_derivation::{extended_rules, lemma_derives_means_in_language};
use crate::chomsky_production::ChomskyProduction;
use crate::extended_backus_naur_form::ebnf_element::Ebnf;
use crate::extended_backus_naur_form::language::in_language;
use crate::model::{contains_symbol, is_symbol_code, symbol_from_code, Variable};
use itertools::Itertools;
use std::collections::HashMap;
use vstd::prelude::*;
use vstd::std_specs::iter::IteratorSpec;

verus! {

/// Whether `symbols` ascends strictly, so that no symbol stands in it twice.
pub open spec fn strictly_ascending(symbols: Seq<char>) -> bool {
    forall|i: int, j: int| 0 <= i < j < symbols.len() ==> symbols[i] < symbols[j]
}

/// Whether `cell` lists exactly the symbols in `members`, each once, in
/// ascending order. A set has one such list.
pub open spec fn is_cell(cell: Seq<char>, members: Set<char>) -> bool {
    strictly_ascending(cell) && cell.to_set() == members
}

/// Whether `symbols` ascends, equal symbols side by side.
pub open spec fn ascending(symbols: Seq<char>) -> bool {
    forall|i: int, j: int| 0 <= i <= j < symbols.len() ==> symbols[i] <= symbols[j]
}

/// The symbols in ascending order.
///
/// Trusted: this is `Itertools::sorted`, which collects what the iterator
/// gives, sorts it with `slice::sort` and hands it back in that order; the
/// result therefore holds the same symbols as often as the argument does.
/// Symbols are ordered by their code points.
#[verifier::external_body]
fn sorted_symbols(symbols: Vec<char>) -> (sorted: Vec<char>)
    ensures
        sorted@.to_multiset() == symbols@.to_multiset(),
        ascending(sorted@),
{
    symbols.into_iter().sorted().collect()
}

/// Sorting a list without repetitions gives the one cell of its symbols.
proof fn lemma_sorted_distinct_is_cell(symbols: Seq<char>, sorted: Seq<char>)
    requires
        symbols.no_duplicates(),
        sorted.to_multiset() == symbols.to_multiset(),
        ascending(sorted),
    ensures
        is_cell(sorted, symbols.to_set()),
{
    symbols.to_multiset_ensures();
    sorted.to_multiset_ensures();
    symbols.lemma_multiset_has_no_duplicates();
    sorted.lemma_multiset_has_no_duplicates_conv();
    assert(sorted.to_set() =~= symbols.to_set()) by {
        assert forall|symbol: char| sorted.contains(symbol) <==> symbols.contains(symbol) by {
            assert(sorted.contains(symbol) <==> sorted.to_multiset().count(symbol) > 0);
            assert(symbols.contains(symbol) <==> symbols.to_multiset().count(symbol) > 0);
        }
    }
}

/// Whether `wanted` is one of `productions`.
fn holds_production(productions: &Vec<ChomskyProduction>, wanted: &ChomskyProduction) -> (holds:
    bool)
    ensures
        holds == productions@.contains(*wanted),
{
    let mut index: usize = 0;
    while index < productions.len()
        invariant
            index <= productions@.len(),
            forall|i: int| 0 <= i < index ==> productions@[i] != *wanted,
        decreases productions@.len() - index,
    {
        let produces = match wanted {
            ChomskyProduction::Terminal(terminal) => productions[index].produces_terminal(terminal),
            ChomskyProduction::Sequence(Variable(first), Variable(second)) => {
                productions[index].produces_sequence(first, second)
            },
        };
        if produces {
            return true;
        }
        index += 1;
    }
    false
}

/// A grammar in Chomsky normal form: a start variable, and for each variable
/// that has a rule its list of productions. The rules are kept under the code
/// points of their variables.
pub struct ChomskyGrammar {
    start_symbol: char,
    rules: HashMap<u32, Vec<ChomskyProduction>>,
}

impl ChomskyGrammar {
    /// Every key of the rules is the code point of a symbol.
    #[verifier::type_invariant]
    spec fn keyed_by_symbols(&self) -> bool {
        forall|code: u32| #[trigger] self.rules@.contains_key(code) ==> is_symbol_code(code)
    }

    /// The start variable.
    pub closed spec fn start(&self) -> char {
        self.start_symbol
    }

    /// The rules: the productions of each variable that has any.
    pub closed spec fn rules(&self) -> Map<char, Seq<ChomskyProduction>> {
        Map::new(
            |variable: char| self.rules@.contains_key(variable as u32),
            |variable: char| self.rules@[variable as u32]@,
        )
    }

    /// Whether `production` is one of the productions of `variable`.
    pub open spec fn has_production(&self, variable: char, production: ChomskyProduction) -> bool {
        self.rules().contains_key(variable) && self.rules()[variable].contains(production)
    }

    /// The variables that have `production` among their productions.
    pub open spec fn producers(&self, production: ChomskyProduction) -> Set<char> {
        Set::new(|variable: char| self.has_production(variable, production))
    }

    /// Whether `word` can be derived from `variable`: a word of one symbol
    /// by a terminal production for that symbol, a longer word by a
    /// production of two variables of which the first derives a non-empty
    /// front part of the word and the second the rest. No variable derives
    /// the empty word.
    pub open spec fn derives(&self, variable: char, word: Seq<char>) -> bool
        decreases word.len(),
    {
        if word.len() == 1 {
            self.has_production(variable, ChomskyProduction::Terminal(word[0]))
        } else if word.len() >= 2 {
            exists|split: int, first: char, second: char|
                #![trigger
                    self.has_production(
                        variable,
                        ChomskyProduction::Sequence(Variable(first), Variable(second)),
                    ),
                    word.subrange(0, split),
                ]
                0 < split < word.len() && self.has_production(
                    variable,
                    ChomskyProduction::Sequence(Variable(first), Variable(second)),
                ) && self.derives(first, word.subrange(0, split)) && self.derives(
                    second,
                    word.subrange(split, word.len() as int),
                )
        } else {
            false
        }
    }

    /// The variables from which `word` can be derived.
    pub open spec fn derivable(&self, word: Seq<char>) -> Set<char> {
        Set::new(|variable: char| self.derives(variable, word))
    }

    /// The variables that produce a variable of `firsts` followed by a
    /// variable of `seconds`.
    pub open spec fn producers_of_pairs(&self, firsts: Set<char>, seconds: Set<char>) -> Set<char> {
        Set::new(
            |variable: char|
                exists|first: char, second: char|
                    firsts.contains(first) && seconds.contains(second)
                        && #[trigger] self.has_production(
                        variable,
                        ChomskyProduction::Sequence(Variable(first), Variable(second)),
                    ),
        )
    }

    /// The variables from which `word` can be derived by a production of two
    /// variables that parts the word behind one of its first `splits`
    /// symbols.
    pub open spec fn derivable_by_split(&self, word: Seq<char>, splits: int) -> Set<char> {
        Set::new(
            |variable: char|
                exists|split: int|
                    0 < split <= splits && split < word.len() && self.producers_of_pairs(
                        self.derivable(#[trigger] word.subrange(0, split)),
                        self.derivable(word.subrange(split, word.len() as int)),
                    ).contains(variable),
        )
    }

    /// A word of two or more symbols is derived by parting it somewhere.
    pub proof fn lemma_derivable_by_split(&self, word: Seq<char>)
        requires
            word.len() >= 2,
        ensures
            self.derivable(word) == self.derivable_by_split(word, word.len() - 1),
    {
        assert forall|variable: char|
            self.derivable(word).contains(variable) <==> self.derivable_by_split(
                word,
                word.len() - 1,
            ).contains(variable) by {
            if self.derives(variable, word) {
                let (split, first, second) = choose|split: int, first: char, second: char|
                    #![trigger
                        self.has_production(
                            variable,
                            ChomskyProduction::Sequence(Variable(first), Variable(second)),
                        ),
                        word.subrange(0, split),
                    ]
                    0 < split < word.len() && self.has_production(
                        variable,
                        ChomskyProduction::Sequence(Variable(first), Variable(second)),
                    ) && self.derives(first, word.subrange(0, split)) && self.derives(
                        second,
                        word.subrange(split, word.len() as int),
                    );
                assert(self.derivable(word.subrange(0, split)).contains(first));
                assert(self.derivable(word.subrange(split, word.len() as int)).contains(second));
                assert(self.producers_of_pairs(
                    self.derivable(word.subrange(0, split)),
                    self.derivable(word.subrange(split, word.len() as int)),
                ).contains(variable));
            }
            if self.derivable_by_split(word, word.len() - 1).contains(variable) {
                let split = choose|split: int|
                    0 < split <= word.len() - 1 && split < word.len() && self.producers_of_pairs(
                        self.derivable(#[trigger] word.subrange(0, split)),
                        self.derivable(word.subrange(split, word.len() as int)),
                    ).contains(variable);
                let firsts = self.derivable(word.subrange(0, split));
                let seconds = self.derivable(word.subrange(split, word.len() as int));
                let (first, second) = choose|first: char, second: char|
                    firsts.contains(first) && seconds.contains(second)
                        && #[trigger] self.has_production(
                        variable,
                        ChomskyProduction::Sequence(Variable(first), Variable(second)),
                    );
                assert(self.derives(first, word.subrange(0, split)));
                assert(self.derives(second, word.subrange(split, word.len() as int)));
            }
        }
        assert(self.derivable(word) =~= self.derivable_by_split(word, word.len() - 1));
    }

    /// Whether the rows of `table` are the first rows of the table of
    /// `word`: row `r` has one cell for each part of `r + 1` symbols, in the
    /// order of their positions, and each cell lists the variables from which
    /// its part can be derived.
    pub open spec fn holds_rows_of(&self, table: Seq<Vec<Vec<char>>>, word: Seq<char>) -> bool {
        &&& table.len() <= word.len()
        &&& forall|row: int|
            0 <= row < table.len() ==> (#[trigger] table[row])@.len() == word.len() - row
        &&& forall|row: int, position: int|
            #![trigger table[row]@[position]]
            0 <= row < table.len() && 0 <= position < word.len() - row ==> is_cell(
                table[row]@[position]@,
                self.derivable(word.subrange(position, position + row + 1)),
            )
    }

    /// The grammar with the start variable `start_symbol` and no rule.
    pub fn new(start_symbol: char) -> (grammar: Self)
        ensures
            grammar.start() == start_symbol,
            grammar.rules() == Map::<char, Seq<ChomskyProduction>>::empty(),
    {
        broadcast use vstd::std_specs::hash::group_hash_axioms;

        let grammar = ChomskyGrammar { start_symbol, rules: HashMap::new() };
        assert(grammar.rules() =~= Map::<char, Seq<ChomskyProduction>>::empty());
        grammar
    }

    /// This grammar with the rule `productions` for `variable`, in place of
    /// the rule that `variable` had, if it had one.
    pub fn with_rule(self, variable: char, productions: Vec<ChomskyProduction>) -> (grammar: Self)
        ensures
            grammar.start() == self.start(),
            grammar.rules() == self.rules().insert(variable, productions@),
    {
        broadcast use vstd::std_specs::hash::group_hash_axioms;

        proof {
            use_type_invariant(&self);
        }
        let ChomskyGrammar { start_symbol, rules } = self;
        let mut rules = rules;
        rules.insert(variable as u32, productions);
        let grammar = ChomskyGrammar { start_symbol, rules };
        proof {
            let wanted = self.rules().insert(variable, productions@);
            assert forall|other: char| #[trigger]
                grammar.rules().contains_key(other) <==> wanted.contains_key(other) by {
                vstd::utf8::char_u32_cast(other, other as u32);
                vstd::utf8::char_u32_cast(variable, variable as u32);
            }
            assert forall|other: char| #[trigger]
                grammar.rules().contains_key(other) implies grammar.rules()[other]
                == wanted[other] by {
                vstd::utf8::char_u32_cast(other, other as u32);
                vstd::utf8::char_u32_cast(variable, variable as u32);
            }
            assert(grammar.rules() =~= wanted);
        }
        grammar
    }

    /// The variables that have `wanted` among their productions, in
    /// ascending order.
    fn search_rules_producing(&self, wanted: &ChomskyProduction) -> (cell: Vec<char>)
        ensures
            is_cell(cell@, self.producers(*wanted)),
    {
        broadcast use vstd::std_specs::hash::group_hash_axioms;

        proof {
            use_type_invariant(self);
        }
        let mut found: Vec<char> = Vec::new();
        let ghost mut origin: Seq<int> = Seq::empty();
        for pair in walk: self.rules.iter()
            invariant
                self.keyed_by_symbols(),
                walk.seq() == self.rules.iter().remaining(),
                origin.len() == found@.len(),
                forall|k: int|
                    0 <= k < found@.len() ==> 0 <= #[trigger] origin[k] < walk.index()
                        && found@[k] == (*walk.seq()[origin[k]].0) as char
                        && walk.seq()[origin[k]].1@.contains(*wanted),
                forall|k: int, l: int| 0 <= k < l < found@.len() ==> origin[k] < origin[l],
                forall|i: int|
                    0 <= i < walk.index() && (#[trigger] walk.seq()[i]).1@.contains(*wanted)
                        ==> found@.contains((*walk.seq()[i].0) as char),
        {
            let ghost at = walk.index();
            assert(self.rules@.contains_key(*walk.seq()[at].0));
            if holds_production(pair.1, wanted) {
                let ghost before = found@;
                match symbol_from_code(*pair.0) {
                    Some(symbol) => {
                        found.push(symbol);
                        proof {
                            origin = origin.push(at);
                        }
                    },
                    None => {},
                }
                proof {
                    assert forall|i: int|
                        0 <= i < at + 1 && (#[trigger] walk.seq()[i]).1@.contains(
                            *wanted,
                        ) implies found@.contains((*walk.seq()[i].0) as char) by {
                        if i < at {
                            let k = choose|k: int|
                                0 <= k < before.len() && before[k] == (*walk.seq()[i].0) as char;
                            assert(found@[k] == (*walk.seq()[i].0) as char);
                        } else {
                            assert(found@[found@.len() - 1] == (*walk.seq()[i].0) as char);
                        }
                    }
                }
            }
        }
        proof {
            let entries = self.rules.iter().remaining();
            assert(found@.no_duplicates()) by {
                assert forall|k: int, l: int|
                    0 <= k < found@.len() && 0 <= l < found@.len() && k != l implies found@[k]
                    != found@[l] by {
                    let first = *entries[origin[k]].0;
                    let second = *entries[origin[l]].0;
                    assert(self.rules@.contains_key(first));
                    assert(self.rules@.contains_key(second));
                    if k < l {
                        assert(origin[k] < origin[l]);
                    } else {
                        assert(origin[l] < origin[k]);
                    }
                    if first == second {
                        assert(self.rules@[first] == *entries[origin[k]].1);
                        assert(self.rules@[second] == *entries[origin[l]].1);
                        assert(entries[origin[k]] == entries[origin[l]]);
                    }
                    assert((first as char) as u32 == first);
                    assert((second as char) as u32 == second);
                }
            }
            assert(found@.to_set() =~= self.producers(*wanted)) by {
                assert forall|variable: char|
                    found@.contains(variable) <==> self.has_production(variable, *wanted) by {
                    vstd::utf8::char_u32_cast(variable, variable as u32);
                    if found@.contains(variable) {
                        let k = choose|k: int| 0 <= k < found@.len() && found@[k] == variable;
                        let code = *entries[origin[k]].0;
                        assert(self.rules@.contains_key(code));
                        assert(self.rules@[code] == *entries[origin[k]].1);
                        assert((code as char) as u32 == code);
                    }
                    if self.has_production(variable, *wanted) {
                        let code = variable as u32;
                        assert(entries.contains((&code, &self.rules@[code])));
                        let i = choose|i: int|
                            0 <= i < entries.len() && entries[i] == (&code, &self.rules@[code]);
                        assert(entries[i].1@.contains(*wanted));
                        assert(found@.contains((*entries[i].0) as char));
                    }
                }
            }
        }
        let cell = sorted_symbols(found);
        proof {
            lemma_sorted_distinct_is_cell(found@, cell@);
        }
        cell
    }

    /// The variables that produce the terminal `terminal`, in ascending
    /// order.
    pub fn search_rules_producing_terminal(&self, terminal: &char) -> (cell: Vec<char>)
        ensures
            is_cell(cell@, self.producers(ChomskyProduction::Terminal(*terminal))),
    {
        self.search_rules_producing(&ChomskyProduction::Terminal(*terminal))
    }

    /// The variables that produce the variable `first_var` followed by the
    /// variable `second_var`, in ascending order.
    pub fn search_rules_producing_sequence(&self, first_var: &char, second_var: &char) -> (cell:
        Vec<char>)
        ensures
            is_cell(
                cell@,
                self.producers(
                    ChomskyProduction::Sequence(Variable(*first_var), Variable(*second_var)),
                ),
            ),
    {
        self.search_rules_producing(
            &ChomskyProduction::Sequence(Variable(*first_var), Variable(*second_var)),
        )
    }

    /// Adds to `cell` the variables that produce `first` followed by
    /// `second` and are not in it yet.
    fn add_producers(&self, first: char, second: char, cell: &mut Vec<char>)
        requires
            old(cell)@.no_duplicates(),
        ensures
            final(cell)@.no_duplicates(),
            final(cell)@.to_set() == old(cell)@.to_set().union(
                self.producers(ChomskyProduction::Sequence(Variable(first), Variable(second))),
            ),
    {
        let found = self.search_rules_producing_sequence(&first, &second);
        let ghost wanted = self.producers(
            ChomskyProduction::Sequence(Variable(first), Variable(second)),
        );
        let mut index: usize = 0;
        while index < found.len()
            invariant
                index <= found@.len(),
                found@.to_set() == wanted,
                cell@.no_duplicates(),
                forall|symbol: char|
                    cell@.contains(symbol) <==> old(cell)@.contains(symbol) || exists|i: int|
                        0 <= i < index && found@[i] == symbol,
            decreases found@.len() - index,
        {
            let symbol = found[index];
            let ghost before = cell@;
            if !contains_symbol(cell, symbol) {
                cell.push(symbol);
            }
            proof {
                assert forall|other: char|
                    cell@.contains(other) <==> old(cell)@.contains(other) || exists|i: int|
                        0 <= i < index + 1 && found@[i] == other by {
                    if before.contains(other) {
                        let k = choose|k: int| 0 <= k < before.len() && before[k] == other;
                        assert(cell@[k] == other);
                        if !old(cell)@.contains(other) {
                            let i = choose|i: int| 0 <= i < index && found@[i] == other;
                            assert(0 <= i < index + 1 && found@[i] == other);
                        }
                    }
                    if other == symbol {
                        assert(found@[index as int] == other);
                        if !before.contains(other) {
                            assert(cell@[cell@.len() - 1] == other);
                        }
                    }
                    if cell@.contains(other) && !before.contains(other) {
                        let k = choose|k: int| 0 <= k < cell@.len() && cell@[k] == other;
                        assert(k == before.len());
                    }
                    if exists|i: int| 0 <= i < index + 1 && found@[i] == other {
                        let i = choose|i: int| 0 <= i < index + 1 && found@[i] == other;
                        if i < index {
                            assert(before.contains(other));
                        }
                    }
                }
            }
            index += 1;
        }
        proof {
            assert forall|symbol: char|
                cell@.to_set().contains(symbol) <==> old(cell)@.to_set().union(wanted).contains(
                    symbol,
                ) by {
                if wanted.contains(symbol) {
                    assert(found@.to_set().contains(symbol));
                    let i = choose|i: int| 0 <= i < found@.len() && found@[i] == symbol;
                    assert(0 <= i < index && found@[i] == symbol);
                }
                if cell@.contains(symbol) && !old(cell)@.contains(symbol) {
                    let i = choose|i: int| 0 <= i < index && found@[i] == symbol;
                    assert(found@.to_set().contains(symbol));
                }
            }
            assert(cell@.to_set() =~= old(cell)@.to_set().union(wanted));
        }
    }

    /// Adds to `cell` the variables that produce a variable of `first_vars`
    /// followed by a variable of `second_vars` and are not in it yet.
    fn add_pair_producers(&self, first_vars: &Vec<char>, second_vars: &Vec<char>, cell: &mut Vec<char>)
        requires
            old(cell)@.no_duplicates(),
        ensures
            final(cell)@.no_duplicates(),
            final(cell)@.to_set() == old(cell)@.to_set().union(
                self.producers_of_pairs(first_vars@.to_set(), second_vars@.to_set()),
            ),
    {
        let ghost firsts = first_vars@;
        let ghost seconds = second_vars@;
        let mut first_index: usize = 0;
        while first_index < first_vars.len()
            invariant
                first_index <= first_vars@.len(),
                firsts == first_vars@,
                seconds == second_vars@,
                cell@.no_duplicates(),
                cell@.to_set() == old(cell)@.to_set().union(
                    self.producers_of_pairs(
                        firsts.subrange(0, first_index as int).to_set(),
                        seconds.to_set(),
                    ),
                ),
            decreases first_vars@.len() - first_index,
        {
            let first = first_vars[first_index];
            let ghost row_start = cell@.to_set();
            let mut second_index: usize = 0;
            while second_index < second_vars.len()
                invariant
                    second_index <= second_vars@.len(),
                    first_index < first_vars@.len(),
                    first == firsts[first_index as int],
                    firsts == first_vars@,
                    seconds == second_vars@,
                    cell@.no_duplicates(),
                    cell@.to_set() == row_start.union(
                        self.producers_of_pairs(
                            set![first],
                            seconds.subrange(0, second_index as int).to_set(),
                        ),
                    ),
                decreases second_vars@.len() - second_index,
            {
                let second = second_vars[second_index];
                let ghost before = cell@.to_set();
                self.add_producers(first, second, cell);
                proof {
                    let earlier = seconds.subrange(0, second_index as int);
                    let now = seconds.subrange(0, second_index + 1);
                    assert(now =~= earlier.push(second));
                    assert forall|variable: char|
                        self.producers_of_pairs(set![first], now.to_set()).contains(variable)
                            <==> self.producers_of_pairs(set![first], earlier.to_set()).contains(
                            variable,
                        ) || self.producers(
                            ChomskyProduction::Sequence(Variable(first), Variable(second)),
                        ).contains(variable) by {
                        if self.producers_of_pairs(set![first], now.to_set()).contains(variable) {
                            let (x, y) = choose|x: char, y: char|
                                set![first].contains(x) && now.to_set().contains(y)
                                    && #[trigger] self.has_production(
                                    variable,
                                    ChomskyProduction::Sequence(Variable(x), Variable(y)),
                                );
                            if y != second {
                                let k = choose|k: int| 0 <= k < now.len() && now[k] == y;
                                assert(earlier[k] == y);
                                assert(earlier.to_set().contains(y));
                            }
                        }
                        if self.producers_of_pairs(set![first], earlier.to_set()).contains(
                            variable,
                        ) {
                            let (x, y) = choose|x: char, y: char|
                                set![first].contains(x) && earlier.to_set().contains(y)
                                    && #[trigger] self.has_production(
                                    variable,
                                    ChomskyProduction::Sequence(Variable(x), Variable(y)),
                                );
                            let k = choose|k: int| 0 <= k < earlier.len() && earlier[k] == y;
                            assert(now[k] == y);
                            assert(now.to_set().contains(y));
                        }
                        if self.producers(
                            ChomskyProduction::Sequence(Variable(first), Variable(second)),
                        ).contains(variable) {
                            assert(now[second_index as int] == second);
                            assert(now.to_set().contains(second));
                            assert(set![first].contains(first));
                        }
                    }
                    assert(cell@.to_set() =~= row_start.union(
                        self.producers_of_pairs(set![first], now.to_set()),
                    ));
                }
                second_index += 1;
            }
            proof {
                let earlier = firsts.subrange(0, first_index as int);
                let now = firsts.subrange(0, first_index + 1);
                assert(now =~= earlier.push(first));
                assert(seconds.subrange(0, seconds.len() as int) =~= seconds);
                assert forall|variable: char|
                    self.producers_of_pairs(now.to_set(), seconds.to_set()).contains(variable)
                        <==> self.producers_of_pairs(earlier.to_set(), seconds.to_set()).contains(
                        variable,
                    ) || self.producers_of_pairs(set![first], seconds.to_set()).contains(
                        variable,
                    ) by {
                    if self.producers_of_pairs(now.to_set(), seconds.to_set()).contains(variable) {
                        let (x, y) = choose|x: char, y: char|
                            now.to_set().contains(x) && seconds.to_set().contains(y)
                                && #[trigger] self.has_production(
                                variable,
                                ChomskyProduction::Sequence(Variable(x), Variable(y)),
                            );
                        if x != first {
                            let k = choose|k: int| 0 <= k < now.len() && now[k] == x;
                            assert(earlier[k] == x);
                            assert(earlier.to_set().contains(x));
                        } else {
                            assert(set![first].contains(x));
                        }
                    }
                    if self.producers_of_pairs(earlier.to_set(), seconds.to_set()).contains(
                        variable,
                    ) {
                        let (x, y) = choose|x: char, y: char|
                            earlier.to_set().contains(x) && seconds.to_set().contains(y)
                                && #[trigger] self.has_production(
                                variable,
                                ChomskyProduction::Sequence(Variable(x), Variable(y)),
                            );
                        let k = choose|k: int| 0 <= k < earlier.len() && earlier[k] == x;
                        assert(now[k] == x);
                        assert(now.to_set().contains(x));
                    }
                    if self.producers_of_pairs(set![first], seconds.to_set()).contains(variable) {
                        let (x, y) = choose|x: char, y: char|
                            set![first].contains(x) && seconds.to_set().contains(y)
                                && #[trigger] self.has_production(
                                variable,
                                ChomskyProduction::Sequence(Variable(x), Variable(y)),
                            );
                        assert(now[first_index as int] == first);
                        assert(now.to_set().contains(x));
                    }
                }
                assert(cell@.to_set() =~= old(cell)@.to_set().union(
                    self.producers_of_pairs(now.to_set(), seconds.to_set()),
                ));
            }
            first_index += 1;
        }
        proof {
            assert(firsts.subrange(0, firsts.len() as int) =~= firsts);
        }
    }

    /// The cell of the part of `row_index + 1` symbols that starts at
    /// `index`, from the rows for the shorter parts: for each way to part it
    /// in two, the variables that produce a variable of the cell of the
    /// first part followed by one of the cell of the second.
    fn combine_cells(
        &self,
        word: &[char],
        table: &Vec<Vec<Vec<char>>>,
        row_index: usize,
        index: usize,
    ) -> (cell: Vec<char>)
        requires
            1 <= row_index,
            index + row_index < word@.len(),
            table@.len() == row_index,
            self.holds_rows_of(table@, word@),
        ensures
            is_cell(cell@, self.derivable(word@.subrange(index as int, index + row_index + 1))),
    {
        let ghost part = word@.subrange(index as int, index + row_index + 1);
        let length = word.len();
        let mut found: Vec<char> = Vec::new();
        let mut run_index: usize = 0;
        assert(found@.to_set() =~= self.derivable_by_split(part, 0));
        while run_index < row_index
            invariant
                run_index <= row_index,
                1 <= row_index,
                length == word@.len(),
                index + row_index < length,
                table@.len() == row_index,
                self.holds_rows_of(table@, word@),
                part == word@.subrange(index as int, index + row_index + 1),
                found@.no_duplicates(),
                found@.to_set() == self.derivable_by_split(part, run_index as int),
            decreases row_index - run_index,
        {
            let ghost split = run_index + 1;
            assert(table@[run_index as int]@.len() == word@.len() - run_index);
            assert(table@[row_index - run_index - 1]@.len() == word@.len() - (row_index - run_index
                - 1));
            let first_vars = &table[run_index][index];
            let second_vars = &table[row_index - run_index - 1][index + run_index + 1];
            proof {
                assert(part.subrange(0, split) =~= word@.subrange(
                    index as int,
                    index + run_index + 1,
                ));
                assert(part.subrange(split, part.len() as int) =~= word@.subrange(
                    index + run_index + 1,
                    (index + run_index + 1) + (row_index - run_index - 1) + 1,
                ));
                assert(is_cell(
                    table@[run_index as int]@[index as int]@,
                    self.derivable(word@.subrange(index as int, index + run_index + 1)),
                ));
                assert(is_cell(
                    table@[row_index - run_index - 1]@[index + run_index + 1]@,
                    self.derivable(
                        word@.subrange(
                            index + run_index + 1,
                            (index + run_index + 1) + (row_index - run_index - 1) + 1,
                        ),
                    ),
                ));
            }
            self.add_pair_producers(first_vars, second_vars, &mut found);
            proof {
                let added = self.producers_of_pairs(
                    self.derivable(part.subrange(0, split)),
                    self.derivable(part.subrange(split, part.len() as int)),
                );
                assert forall|variable: char|
                    self.derivable_by_split(part, split).contains(variable)
                        <==> self.derivable_by_split(part, run_index as int).contains(variable)
                        || added.contains(variable) by {
                    if self.derivable_by_split(part, split).contains(variable) {
                        let at = choose|at: int|
                            0 < at <= split && at < part.len() && self.producers_of_pairs(
                                self.derivable(#[trigger] part.subrange(0, at)),
                                self.derivable(part.subrange(at, part.len() as int)),
                            ).contains(variable);
                        if at < split {
                            assert(self.derivable_by_split(part, run_index as int).contains(
                                variable,
                            ));
                        }
                    }
                    if self.derivable_by_split(part, run_index as int).contains(variable) {
                        let at = choose|at: int|
                            0 < at <= run_index && at < part.len() && self.producers_of_pairs(
                                self.derivable(#[trigger] part.subrange(0, at)),
                                self.derivable(part.subrange(at, part.len() as int)),
                            ).contains(variable);
                        assert(0 < at <= split);
                    }
                    if added.contains(variable) {
                        assert(0 < split <= split && split < part.len());
                    }
                }
                assert(found@.to_set() =~= self.derivable_by_split(part, split));
            }
            run_index += 1;
        }
        proof {
            self.lemma_derivable_by_split(part);
        }
        let cell = sorted_symbols(found);
        proof {
            lemma_sorted_distinct_is_cell(found@, cell@);
        }
        cell
    }

    /// The CYK table of `word`: one row for each length of a part of the
    /// word, from one symbol up to the whole word, and in each row one cell
    /// for each part of that length, in the order of their positions. Each
    /// cell lists, in ascending order, the variables from which its part can
    /// be derived.
    pub fn build_table(&self, word: &[char]) -> (table: Vec<Vec<Vec<char>>>)
        requires
            word@.len() > 0,
        ensures
            table@.len() == word@.len(),
            forall|row: int|
                0 <= row < word@.len() ==> (#[trigger] table@[row])@.len() == word@.len() - row,
            forall|row: int, position: int|
                #![trigger table@[row]@[position]]
                0 <= row < word@.len() && 0 <= position < word@.len() - row ==> is_cell(
                    table@[row]@[position]@,
                    self.derivable(word@.subrange(position, position + row + 1)),
                ),
    {
        let mut chomsky_table: Vec<Vec<Vec<char>>> = Vec::new();
        let mut first_row: Vec<Vec<char>> = Vec::new();
        let mut position: usize = 0;
        while position < word.len()
            invariant
                position <= word@.len(),
                first_row@.len() == position,
                forall|p: int|
                    0 <= p < position ==> is_cell(
                        (#[trigger] first_row@[p])@,
                        self.derivable(word@.subrange(p, p + 1)),
                    ),
            decreases word@.len() - position,
        {
            let cell = self.search_rules_producing_terminal(&word[position]);
            proof {
                let part = word@.subrange(position as int, position + 1);
                assert(part.len() == 1 && part[0] == word@[position as int]);
                assert(self.derivable(part) =~= self.producers(
                    ChomskyProduction::Terminal(word@[position as int]),
                ));
            }
            first_row.push(cell);
            position += 1;
        }
        chomsky_table.push(first_row);
        let mut row_index: usize = 1;
        while row_index < word.len()
            invariant
                1 <= row_index <= word@.len(),
                chomsky_table@.len() == row_index,
                self.holds_rows_of(chomsky_table@, word@),
            decreases word@.len() - row_index,
        {
            let cells = word.len() - row_index;
            let mut next_row: Vec<Vec<char>> = Vec::new();
            let mut index: usize = 0;
            while index < cells
                invariant
                    1 <= row_index < word@.len(),
                    cells == word@.len() - row_index,
                    index <= cells,
                    chomsky_table@.len() == row_index,
                    self.holds_rows_of(chomsky_table@, word@),
                    next_row@.len() == index,
                    forall|p: int|
                        0 <= p < index ==> is_cell(
                            (#[trigger] next_row@[p])@,
                            self.derivable(word@.subrange(p, p + row_index + 1)),
                        ),
                decreases cells - index,
            {
                let cell = self.combine_cells(word, &chomsky_table, row_index, index);
                next_row.push(cell);
                index += 1;
            }
            let ghost before = chomsky_table@;
            chomsky_table.push(next_row);
            proof {
                assert forall|row: int|
                    0 <= row < chomsky_table@.len() implies (#[trigger] chomsky_table@[row])@.len()
                    == word@.len() - row by {
                    if row < row_index {
                        assert(chomsky_table@[row] == before[row]);
                    }
                }
                assert forall|row: int, p: int|
                    #![trigger chomsky_table@[row]@[p]]
                    0 <= row < chomsky_table@.len() && 0 <= p < word@.len() - row implies is_cell(
                    chomsky_table@[row]@[p]@,
                    self.derivable(word@.subrange(p, p + row + 1)),
                ) by {
                    if row < row_index {
                        assert(chomsky_table@[row] == before[row]);
                        assert(is_cell(
                            before[row]@[p]@,
                            self.derivable(word@.subrange(p, p + row + 1)),
                        ));
                    }
                }
            }
            row_index += 1;
        }
        chomsky_table
    }

    /// Whether `word` belongs to the language of this grammar: whether it
    /// can be derived from the start variable, which is to say whether the
    /// start variable generates it under the rules of the grammar.
    pub fn derive(&self, word: &[char]) -> (accepted: bool)
        requires
            word@.len() > 0,
        ensures
            accepted == self.derives(self.start(), word@),
            accepted == in_language(
                extended_rules(self),
                Ebnf::Variable(Variable(self.start())),
                word@,
            ),
    {
        proof {
            lemma_derives_means_in_language(self, self.start(), word@);
        }
        let table = self.build_table(word);
        let last = word.len() - 1;
        assert(table@[last as int]@.len() == 1);
        let cell = &table[last][0];
        proof {
            assert(word@.subrange(0, 0 + last + 1) =~= word@);
            assert(is_cell(table@[last as int]@[0]@, self.derivable(word@)));
            assert(cell@.contains(self.start()) <==> cell@.to_set().contains(self.start()));
        }
        contains_symbol(cell, self.start_symbol)
    }

    /// Whether `word` belongs to the language of this grammar, where the
    /// question can be asked: the empty word gets no answer.
    pub fn try_derive(&self, word: &[char]) -> (answer: Option<bool>)
        ensures
            answer == (if word@.len() == 0 {
                None::<bool>
            } else {
                Some(self.derives(self.start(), word@))
            }),
    {
        if word.len() == 0 {
            None
        } else {
            Some(self.derive(word))
        }
    }
}

} // verus!
