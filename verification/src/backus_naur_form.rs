//! The plain production algebra.

use crate::model::{Terminal, Variable};
use vstd::prelude::*;

verus! {

/// A production in Backus-Naur form. Each node owns its children.
#[derive(Debug, PartialEq)]
pub enum BackusNaurProduction {
    Epsilon,
    Terminal(Terminal),
    Variable(Variable),
    Optional(Box<BackusNaurProduction>),
    Alternative(Vec<BackusNaurProduction>),
    Sequence(Vec<BackusNaurProduction>),
}

/// The mathematical tree that a plain production stands for.
pub enum Bnf {
    Epsilon,
    Terminal(Terminal),
    Variable(Variable),
    Optional(Box<Bnf>),
    Alternative(Seq<Bnf>),
    Sequence(Seq<Bnf>),
}

impl BackusNaurProduction {
    /// The tree of this production.
    pub open spec fn model(self) -> Bnf
        decreases self,
    {
        match self {
            BackusNaurProduction::Epsilon => Bnf::Epsilon,
            BackusNaurProduction::Terminal(terminal) => Bnf::Terminal(terminal),
            BackusNaurProduction::Variable(variable) => Bnf::Variable(variable),
            BackusNaurProduction::Optional(sub) => Bnf::Optional(Box::new(sub.model())),
            BackusNaurProduction::Alternative(children) => Bnf::Alternative(
                Seq::new(
                    children.len() as nat,
                    |i: int|
                        if 0 <= i < children.len() {
                            children[i].model()
                        } else {
                            Bnf::Epsilon
                        },
                ),
            ),
            BackusNaurProduction::Sequence(children) => Bnf::Sequence(
                Seq::new(
                    children.len() as nat,
                    |i: int|
                        if 0 <= i < children.len() {
                            children[i].model()
                        } else {
                            Bnf::Epsilon
                        },
                ),
            ),
        }
    }

    /// The trees of a list of productions, in order.
    pub open spec fn models(productions: Seq<BackusNaurProduction>) -> Seq<Bnf> {
        Seq::new(productions.len(), |i: int| productions[i].model())
    }

    pub fn terminal(c: char) -> (production: Self)
        ensures
            production@ == Bnf::Terminal(Terminal(c)),
    {
        BackusNaurProduction::Terminal(Terminal(c))
    }

    pub fn variable(c: char) -> (production: Self)
        ensures
            production@ == Bnf::Variable(Variable(c)),
    {
        BackusNaurProduction::Variable(Variable(c))
    }

    pub fn optional(sub_element: BackusNaurProduction) -> (production: Self)
        ensures
            production@ == Bnf::Optional(Box::new(sub_element@)),
    {
        BackusNaurProduction::Optional(Box::new(sub_element))
    }

    /// The alternative over `children`, in their order.
    pub fn alternative(children: Vec<BackusNaurProduction>) -> (production: Self)
        ensures
            production@ == Bnf::Alternative(Self::models(children@)),
    {
        let production = BackusNaurProduction::Alternative(children);
        assert(production@->Alternative_0 =~= Self::models(children@));
        production
    }

    /// The sequence of `children`, in their order.
    pub fn sequence(children: Vec<BackusNaurProduction>) -> (production: Self)
        ensures
            production@ == Bnf::Sequence(Self::models(children@)),
    {
        let production = BackusNaurProduction::Sequence(children);
        assert(production@->Sequence_0 =~= Self::models(children@));
        production
    }
}

impl BackusNaurProduction {
    /// A copy of this production with the same tree.
    fn copy_of(&self) -> (copy: Self)
        ensures
            copy@ == self@,
        decreases self, 0nat,
    {
        match self {
            BackusNaurProduction::Epsilon => BackusNaurProduction::Epsilon,
            BackusNaurProduction::Terminal(terminal) => BackusNaurProduction::Terminal(*terminal),
            BackusNaurProduction::Variable(variable) => BackusNaurProduction::Variable(*variable),
            BackusNaurProduction::Optional(sub) => {
                BackusNaurProduction::Optional(Box::new(sub.copy_of()))
            },
            BackusNaurProduction::Alternative(children) => {
                let copies = Self::copies_of(children);
                let copy = BackusNaurProduction::Alternative(copies);
                assert(copy@ == self@) by {
                    assert(copy@->Alternative_0 =~= self@->Alternative_0);
                }
                copy
            },
            BackusNaurProduction::Sequence(children) => {
                let copies = Self::copies_of(children);
                let copy = BackusNaurProduction::Sequence(copies);
                assert(copy@ == self@) by {
                    assert(copy@->Sequence_0 =~= self@->Sequence_0);
                }
                copy
            },
        }
    }

    /// Copies of a list of productions, in order.
    fn copies_of(children: &Vec<BackusNaurProduction>) -> (copies: Vec<BackusNaurProduction>)
        ensures
            copies@.len() == children@.len(),
            forall|i: int| 0 <= i < children@.len() ==> (#[trigger] copies@[i])@ == children@[i]@,
        decreases children, 1nat,
    {
        let mut copies: Vec<BackusNaurProduction> = Vec::new();
        let mut index: usize = 0;
        while index < children.len()
            invariant
                index <= children@.len(),
                copies@.len() == index,
                forall|i: int| 0 <= i < index ==> (#[trigger] copies@[i])@ == children@[i]@,
            decreases children@.len() - index,
        {
            copies.push(children[index].copy_of());
            index += 1;
        }
        copies
    }
}

impl Clone for BackusNaurProduction {
    fn clone(&self) -> (copy: Self)
        ensures
            copy@ == self@,
    {
        self.copy_of()
    }
}

impl View for BackusNaurProduction {
    type V = Bnf;

    open spec fn view(&self) -> Bnf {
        self.model()
    }
}

} // verus!
