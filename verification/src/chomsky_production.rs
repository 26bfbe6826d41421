//! The two shapes that a right-hand side has in Chomsky normal form.

use crate::model::Variable;
use vstd::prelude::*;

verus! {

/// A right-hand side in Chomsky normal form: one terminal, or two variables.
#[derive(Debug, Clone, Copy, PartialEq, Eq, Structural)]
pub enum ChomskyProduction {
    Terminal(char),
    Sequence(Variable, Variable),
}

impl ChomskyProduction {
    /// Whether this production is the terminal `c`.
    pub fn produces_terminal(&self, c: &char) -> (produces: bool)
        ensures
            produces == (*self == ChomskyProduction::Terminal(*c)),
    {
        match self {
            ChomskyProduction::Terminal(t) => *t == *c,
            ChomskyProduction::Sequence(_, _) => false,
        }
    }

    /// Whether this production is the variable `var1` followed by the
    /// variable `var2`.
    pub fn produces_sequence(&self, var1: &char, var2: &char) -> (produces: bool)
        ensures
            produces == (*self == ChomskyProduction::Sequence(Variable(*var1), Variable(*var2))),
    {
        match self {
            ChomskyProduction::Terminal(_) => false,
            ChomskyProduction::Sequence(Variable(prod1), Variable(prod2)) => *var1 == *prod1
                && *var2 == *prod2,
        }
    }
}

} // verus!
