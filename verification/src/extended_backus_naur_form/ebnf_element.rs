//! The extended production algebra: the plain one plus the two repetitions.

use crate::model::{Terminal, Variable};
use crate::text::push_char;
use vstd::prelude::*;
use vstd::string::*;

verus! {

/// A production in extended Backus-Naur form. Each node owns its children.
#[derive(Debug, PartialEq, Eq, Hash)]
pub enum ExtendedBackusNaurProduction {
    Epsilon,
    Terminal(Terminal),
    Variable(Variable),
    Optional(Box<ExtendedBackusNaurProduction>),
    RepetitionZero(Box<ExtendedBackusNaurProduction>),
    RepetitionOne(Box<ExtendedBackusNaurProduction>),
    Alternative(Vec<ExtendedBackusNaurProduction>),
    Sequence(Vec<ExtendedBackusNaurProduction>),
}

/// The mathematical tree that an extended production stands for. Two
/// productions are the same production exactly when their trees are equal.
pub enum Ebnf {
    Epsilon,
    Terminal(Terminal),
    Variable(Variable),
    Optional(Box<Ebnf>),
    RepetitionZero(Box<Ebnf>),
    RepetitionOne(Box<Ebnf>),
    Alternative(Seq<Ebnf>),
    Sequence(Seq<Ebnf>),
}

impl Ebnf {
    /// The canonical text of a production: children joined by ` | ` in an
    /// alternative and by a blank in a sequence, the operators `?`, `*` and
    /// `+` behind their operand, terminals quoted, `eps` for the empty word.
    pub open spec fn rendering(self) -> Seq<char>
        decreases self, 0nat,
    {
        match self {
            Ebnf::Epsilon => seq!['e', 'p', 's'],
            Ebnf::Terminal(terminal) => terminal.rendering(),
            Ebnf::Variable(variable) => variable.rendering(),
            Ebnf::Optional(sub) => sub.rendering().push('?'),
            Ebnf::RepetitionZero(sub) => sub.rendering().push('*'),
            Ebnf::RepetitionOne(sub) => sub.rendering().push('+'),
            Ebnf::Alternative(children) => Ebnf::joined(
                children,
                children.len(),
                seq![' ', '|', ' '],
            ),
            Ebnf::Sequence(children) => Ebnf::joined(children, children.len(), seq![' ']),
        }
    }

    /// The texts of the first `count` children, with `separator` between
    /// each two of them.
    pub open spec fn joined(children: Seq<Ebnf>, count: nat, separator: Seq<char>) -> Seq<char>
        decreases children, count,
    {
        if count == 0 || count > children.len() {
            Seq::empty()
        } else if count == 1 {
            children[0].rendering()
        } else {
            Ebnf::joined(children, (count - 1) as nat, separator) + separator + children[count
                - 1].rendering()
        }
    }
}

impl Ebnf {
    /// The symbols of the variables in this production, one for each
    /// occurrence at any depth, from left to right.
    pub open spec fn occurrences(self) -> Seq<char>
        decreases self, 0nat,
    {
        match self {
            Ebnf::Epsilon => Seq::empty(),
            Ebnf::Terminal(_) => Seq::empty(),
            Ebnf::Variable(variable) => seq![variable.0],
            Ebnf::Optional(sub) => sub.occurrences(),
            Ebnf::RepetitionZero(sub) => sub.occurrences(),
            Ebnf::RepetitionOne(sub) => sub.occurrences(),
            Ebnf::Alternative(children) => Ebnf::occurrences_among(children, children.len()),
            Ebnf::Sequence(children) => Ebnf::occurrences_among(children, children.len()),
        }
    }

    /// The symbols of the variables in the first `count` of `children`, one
    /// for each occurrence, from left to right.
    pub open spec fn occurrences_among(children: Seq<Ebnf>, count: nat) -> Seq<char>
        decreases children, count,
    {
        if count == 0 || count > children.len() {
            Seq::empty()
        } else {
            Ebnf::occurrences_among(children, (count - 1) as nat) + children[count
                - 1].occurrences()
        }
    }

    /// Whether the variable with the symbol `symbol` occurs in this
    /// production, at any depth.
    pub open spec fn mentions(self, symbol: char) -> bool {
        self.occurrences().contains(symbol)
    }

    /// The symbols of the variables that occur in this production.
    pub open spec fn variables(self) -> Set<char> {
        self.occurrences().to_set()
    }
}

impl ExtendedBackusNaurProduction {
    /// The tree of this production.
    pub open spec fn model(self) -> Ebnf
        decreases self,
    {
        match self {
            ExtendedBackusNaurProduction::Epsilon => Ebnf::Epsilon,
            ExtendedBackusNaurProduction::Terminal(terminal) => Ebnf::Terminal(terminal),
            ExtendedBackusNaurProduction::Variable(variable) => Ebnf::Variable(variable),
            ExtendedBackusNaurProduction::Optional(sub) => Ebnf::Optional(Box::new(sub.model())),
            ExtendedBackusNaurProduction::RepetitionZero(sub) => Ebnf::RepetitionZero(
                Box::new(sub.model()),
            ),
            ExtendedBackusNaurProduction::RepetitionOne(sub) => Ebnf::RepetitionOne(
                Box::new(sub.model()),
            ),
            ExtendedBackusNaurProduction::Alternative(children) => Ebnf::Alternative(
                Seq::new(
                    children.len() as nat,
                    |i: int|
                        if 0 <= i < children.len() {
                            children[i].model()
                        } else {
                            Ebnf::Epsilon
                        },
                ),
            ),
            ExtendedBackusNaurProduction::Sequence(children) => Ebnf::Sequence(
                Seq::new(
                    children.len() as nat,
                    |i: int|
                        if 0 <= i < children.len() {
                            children[i].model()
                        } else {
                            Ebnf::Epsilon
                        },
                ),
            ),
        }
    }

    /// The trees of a list of productions, in order.
    pub open spec fn models(productions: Seq<ExtendedBackusNaurProduction>) -> Seq<Ebnf> {
        Seq::new(productions.len(), |i: int| productions[i].model())
    }

    /// The production of the empty word.
    pub fn epsilon() -> (production: Self)
        ensures
            production@ == Ebnf::Epsilon,
    {
        Self::Epsilon
    }

    /// The alternative over `children`, in their order.
    pub fn alternative(children: Vec<ExtendedBackusNaurProduction>) -> (production: Self)
        ensures
            production@ == Ebnf::Alternative(Self::models(children@)),
    {
        let production = Self::Alternative(children);
        assert(production@->Alternative_0 =~= Self::models(children@));
        production
    }

    /// The sequence of `children`, in their order.
    pub fn sequence(children: Vec<ExtendedBackusNaurProduction>) -> (production: Self)
        ensures
            production@ == Ebnf::Sequence(Self::models(children@)),
    {
        let production = Self::Sequence(children);
        assert(production@->Sequence_0 =~= Self::models(children@));
        production
    }

    pub fn terminal(c: char) -> (production: Self)
        ensures
            production@ == Ebnf::Terminal(Terminal(c)),
    {
        Self::Terminal(Terminal(c))
    }

    pub fn variable(c: char) -> (production: Self)
        ensures
            production@ == Ebnf::Variable(Variable(c)),
    {
        Self::Variable(Variable(c))
    }

    pub fn optional(sub_element: ExtendedBackusNaurProduction) -> (production: Self)
        ensures
            production@ == Ebnf::Optional(Box::new(sub_element@)),
    {
        Self::Optional(Box::new(sub_element))
    }

    pub fn repetition_zero(sub_element: ExtendedBackusNaurProduction) -> (production: Self)
        ensures
            production@ == Ebnf::RepetitionZero(Box::new(sub_element@)),
    {
        Self::RepetitionZero(Box::new(sub_element))
    }

    pub fn repetition_one(sub_element: ExtendedBackusNaurProduction) -> (production: Self)
        ensures
            production@ == Ebnf::RepetitionOne(Box::new(sub_element@)),
    {
        Self::RepetitionOne(Box::new(sub_element))
    }
}

impl ExtendedBackusNaurProduction {
    /// A copy of this production with the same tree.
    fn copy_of(&self) -> (copy: Self)
        ensures
            copy@ == self@,
        decreases self, 0nat,
    {
        match self {
            ExtendedBackusNaurProduction::Epsilon => ExtendedBackusNaurProduction::Epsilon,
            ExtendedBackusNaurProduction::Terminal(terminal) => {
                ExtendedBackusNaurProduction::Terminal(*terminal)
            },
            ExtendedBackusNaurProduction::Variable(variable) => {
                ExtendedBackusNaurProduction::Variable(*variable)
            },
            ExtendedBackusNaurProduction::Optional(sub) => {
                ExtendedBackusNaurProduction::Optional(Box::new(sub.copy_of()))
            },
            ExtendedBackusNaurProduction::RepetitionZero(sub) => {
                ExtendedBackusNaurProduction::RepetitionZero(Box::new(sub.copy_of()))
            },
            ExtendedBackusNaurProduction::RepetitionOne(sub) => {
                ExtendedBackusNaurProduction::RepetitionOne(Box::new(sub.copy_of()))
            },
            ExtendedBackusNaurProduction::Alternative(children) => {
                let copies = Self::copies_of(children);
                let copy = ExtendedBackusNaurProduction::Alternative(copies);
                assert(copy@ == self@) by {
                    assert(copy@->Alternative_0 =~= self@->Alternative_0);
                }
                copy
            },
            ExtendedBackusNaurProduction::Sequence(children) => {
                let copies = Self::copies_of(children);
                let copy = ExtendedBackusNaurProduction::Sequence(copies);
                assert(copy@ == self@) by {
                    assert(copy@->Sequence_0 =~= self@->Sequence_0);
                }
                copy
            },
        }
    }

    /// Copies of a list of productions, in order.
    fn copies_of(children: &Vec<ExtendedBackusNaurProduction>) -> (copies: Vec<
        ExtendedBackusNaurProduction,
    >)
        ensures
            copies@.len() == children@.len(),
            forall|i: int| 0 <= i < children@.len() ==> (#[trigger] copies@[i])@ == children@[i]@,
        decreases children, 1nat,
    {
        let mut copies: Vec<ExtendedBackusNaurProduction> = Vec::new();
        let mut index: usize = 0;
        while index < children.len()
            invariant
                index <= children@.len(),
                copies@.len() == index,
                forall|i: int| 0 <= i < index ==> (#[trigger] copies@[i])@ == children@[i]@,
            decreases children@.len() - index,
        {
            copies.push(children[index].copy_of());
            index += 1;
        }
        copies
    }

    /// Whether this production and `other` are the same production.
    pub fn same_as(&self, other: &ExtendedBackusNaurProduction) -> (same: bool)
        ensures
            same == (self@ == other@),
        decreases self, 0nat,
    {
        match (self, other) {
            (ExtendedBackusNaurProduction::Epsilon, ExtendedBackusNaurProduction::Epsilon) => true,
            (
                ExtendedBackusNaurProduction::Terminal(mine),
                ExtendedBackusNaurProduction::Terminal(theirs),
            ) => mine.0 == theirs.0,
            (
                ExtendedBackusNaurProduction::Variable(mine),
                ExtendedBackusNaurProduction::Variable(theirs),
            ) => mine.0 == theirs.0,
            (
                ExtendedBackusNaurProduction::Optional(mine),
                ExtendedBackusNaurProduction::Optional(theirs),
            ) => mine.same_as(theirs),
            (
                ExtendedBackusNaurProduction::RepetitionZero(mine),
                ExtendedBackusNaurProduction::RepetitionZero(theirs),
            ) => mine.same_as(theirs),
            (
                ExtendedBackusNaurProduction::RepetitionOne(mine),
                ExtendedBackusNaurProduction::RepetitionOne(theirs),
            ) => mine.same_as(theirs),
            (
                ExtendedBackusNaurProduction::Alternative(mine),
                ExtendedBackusNaurProduction::Alternative(theirs),
            ) => {
                let same = Self::same_children(mine, theirs);
                proof {
                    assert(self@->Alternative_0 =~= Self::models(mine@));
                    assert(other@->Alternative_0 =~= Self::models(theirs@));
                }
                same
            },
            (
                ExtendedBackusNaurProduction::Sequence(mine),
                ExtendedBackusNaurProduction::Sequence(theirs),
            ) => {
                let same = Self::same_children(mine, theirs);
                proof {
                    assert(self@->Sequence_0 =~= Self::models(mine@));
                    assert(other@->Sequence_0 =~= Self::models(theirs@));
                }
                same
            },
            _ => false,
        }
    }

    /// Whether two lists hold the same productions in the same order.
    fn same_children(
        mine: &Vec<ExtendedBackusNaurProduction>,
        theirs: &Vec<ExtendedBackusNaurProduction>,
    ) -> (same: bool)
        ensures
            same == (Self::models(mine@) == Self::models(theirs@)),
        decreases mine, 1nat,
    {
        if mine.len() != theirs.len() {
            assert(Self::models(mine@).len() != Self::models(theirs@).len());
            return false;
        }
        let mut index: usize = 0;
        while index < mine.len()
            invariant
                mine@.len() == theirs@.len(),
                index <= mine@.len(),
                forall|i: int| 0 <= i < index ==> mine@[i]@ == theirs@[i]@,
            decreases mine@.len() - index,
        {
            if !mine[index].same_as(&theirs[index]) {
                proof {
                    let i = index as int;
                    assert(Self::models(mine@)[i] == mine@[i]@);
                    assert(Self::models(theirs@)[i] == theirs@[i]@);
                }
                return false;
            }
            index += 1;
        }
        assert(Self::models(mine@) =~= Self::models(theirs@));
        true
    }

    /// Appends the text of this production to `out`.
    pub fn write_to(&self, out: &mut String)
        ensures
            final(out)@ == old(out)@ + self@.rendering(),
        decreases self, 0nat,
    {
        match self {
            ExtendedBackusNaurProduction::Epsilon => {
                proof {
                    reveal_strlit("eps");
                }
                out.append("eps");
                assert(out@ =~= old(out)@ + self@.rendering());
            },
            ExtendedBackusNaurProduction::Terminal(terminal) => {
                terminal.write_to(out);
            },
            ExtendedBackusNaurProduction::Variable(variable) => {
                variable.write_to(out);
            },
            ExtendedBackusNaurProduction::Optional(sub) => {
                sub.write_to(out);
                push_char(out, '?');
                assert(out@ =~= old(out)@ + self@.rendering());
            },
            ExtendedBackusNaurProduction::RepetitionZero(sub) => {
                sub.write_to(out);
                push_char(out, '*');
                assert(out@ =~= old(out)@ + self@.rendering());
            },
            ExtendedBackusNaurProduction::RepetitionOne(sub) => {
                sub.write_to(out);
                push_char(out, '+');
                assert(out@ =~= old(out)@ + self@.rendering());
            },
            ExtendedBackusNaurProduction::Alternative(children) => {
                proof {
                    reveal_strlit(" | ");
                }
                assert(" | "@ =~= seq![' ', '|', ' ']);
                assert(self@->Alternative_0 =~= Self::models(children@));
                Self::write_joined(children, " | ", out);
            },
            ExtendedBackusNaurProduction::Sequence(children) => {
                proof {
                    reveal_strlit(" ");
                }
                assert(" "@ =~= seq![' ']);
                assert(self@->Sequence_0 =~= Self::models(children@));
                Self::write_joined(children, " ", out);
            },
        }
    }

    /// Appends the texts of `children` to `out`, with `separator` between
    /// each two of them.
    fn write_joined(children: &Vec<ExtendedBackusNaurProduction>, separator: &str, out: &mut String)
        ensures
            final(out)@ == old(out)@ + Ebnf::joined(
                Self::models(children@),
                children@.len(),
                separator@,
            ),
        decreases children, 1nat,
    {
        let ghost trees = Self::models(children@);
        let mut index: usize = 0;
        assert(out@ =~= old(out)@ + Ebnf::joined(trees, 0, separator@));
        while index < children.len()
            invariant
                index <= children@.len(),
                trees == Self::models(children@),
                out@ == old(out)@ + Ebnf::joined(trees, index as nat, separator@),
            decreases children@.len() - index,
        {
            let ghost before = out@;
            if index > 0 {
                out.append(separator);
            }
            children[index].write_to(out);
            proof {
                let next = (index + 1) as nat;
                assert(trees[index as int] == children@[index as int]@);
                if index == 0 {
                    assert(Ebnf::joined(trees, 0, separator@) =~= Seq::<char>::empty());
                    assert(out@ =~= old(out)@ + Ebnf::joined(trees, next, separator@));
                } else {
                    assert(Ebnf::joined(trees, next, separator@) == Ebnf::joined(
                        trees,
                        index as nat,
                        separator@,
                    ) + separator@ + trees[index as int].rendering());
                    assert(out@ =~= old(out)@ + Ebnf::joined(trees, next, separator@));
                }
            }
            index += 1;
        }
    }

    /// Appends to `symbols` the symbol of every variable in this production,
    /// once for each occurrence, from left to right.
    pub fn collect_variables(&self, symbols: &mut Vec<char>)
        ensures
            final(symbols)@ == old(symbols)@ + self@.occurrences(),
        decreases self, 0nat,
    {
        match self {
            ExtendedBackusNaurProduction::Epsilon => {
                assert(symbols@ =~= old(symbols)@ + self@.occurrences());
            },
            ExtendedBackusNaurProduction::Terminal(_) => {
                assert(symbols@ =~= old(symbols)@ + self@.occurrences());
            },
            ExtendedBackusNaurProduction::Variable(variable) => {
                symbols.push(variable.0);
                assert(symbols@ =~= old(symbols)@ + self@.occurrences());
            },
            ExtendedBackusNaurProduction::Optional(sub) => {
                sub.collect_variables(symbols);
                assert(self@.occurrences() == sub@.occurrences());
            },
            ExtendedBackusNaurProduction::RepetitionZero(sub) => {
                sub.collect_variables(symbols);
                assert(self@.occurrences() == sub@.occurrences());
            },
            ExtendedBackusNaurProduction::RepetitionOne(sub) => {
                sub.collect_variables(symbols);
                assert(self@.occurrences() == sub@.occurrences());
            },
            ExtendedBackusNaurProduction::Alternative(children) => {
                assert(self@->Alternative_0 =~= Self::models(children@));
                Self::collect_variables_of(children, symbols);
            },
            ExtendedBackusNaurProduction::Sequence(children) => {
                assert(self@->Sequence_0 =~= Self::models(children@));
                Self::collect_variables_of(children, symbols);
            },
        }
    }

    /// Appends to `symbols` the symbol of every variable in `children`, once
    /// for each occurrence, from left to right.
    fn collect_variables_of(children: &Vec<ExtendedBackusNaurProduction>, symbols: &mut Vec<char>)
        ensures
            final(symbols)@ == old(symbols)@ + Ebnf::occurrences_among(
                Self::models(children@),
                children@.len(),
            ),
        decreases children, 1nat,
    {
        let ghost trees = Self::models(children@);
        let mut index: usize = 0;
        assert(symbols@ =~= old(symbols)@ + Ebnf::occurrences_among(trees, 0));
        while index < children.len()
            invariant
                index <= children@.len(),
                trees == Self::models(children@),
                symbols@ == old(symbols)@ + Ebnf::occurrences_among(trees, index as nat),
            decreases children@.len() - index,
        {
            children[index].collect_variables(symbols);
            proof {
                assert(trees[index as int] == children@[index as int]@);
                assert(symbols@ =~= old(symbols)@ + Ebnf::occurrences_among(
                    trees,
                    (index + 1) as nat,
                ));
            }
            index += 1;
        }
    }

    /// The symbols of the variables in this production, one for each
    /// occurrence, from left to right.
    pub fn variables(&self) -> (symbols: Vec<char>)
        ensures
            symbols@ == self@.occurrences(),
    {
        let mut symbols: Vec<char> = Vec::new();
        self.collect_variables(&mut symbols);
        assert(symbols@ =~= self@.occurrences());
        symbols
    }

    /// The text of this production.
    pub fn render(&self) -> (text: String)
        ensures
            text@ == self@.rendering(),
    {
        let mut text = String::new();
        self.write_to(&mut text);
        assert(text@ =~= self@.rendering());
        text
    }
}

impl Clone for ExtendedBackusNaurProduction {
    fn clone(&self) -> (copy: Self)
        ensures
            copy@ == self@,
    {
        self.copy_of()
    }
}

impl View for ExtendedBackusNaurProduction {
    type V = Ebnf;

    open spec fn view(&self) -> Ebnf {
        self.model()
    }
}

} // verus!
