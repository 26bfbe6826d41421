//! What the rewriting of one production, or of a list of them, hands back.

use crate::backus_naur_form::{BackusNaurProduction, Bnf};
use crate::extended_backus_naur_form::ebnf_element::{Ebnf, ExtendedBackusNaurProduction};
use crate::model::Variable;
use vstd::prelude::*;

verus! {

/// The outcome of rewriting one extended production: the plain production
/// that replaces it, the variables that were minted for it, the repeated
/// productions that those variables now stand for, and the rules that define
/// them. The rules are still extended productions.
#[derive(Debug, PartialEq)]
pub struct ElementConversionResult {
    pub output_element: BackusNaurProduction,
    pub new_variables: Vec<char>,
    pub new_replacers: Vec<(ExtendedBackusNaurProduction, Variable)>,
    pub new_rules: Vec<(Variable, ExtendedBackusNaurProduction)>,
}

/// The outcome of rewriting a list of extended productions, one after the
/// other: the plain productions in the same order, and what was minted for
/// all of them.
#[derive(Debug, PartialEq)]
pub struct ElementsConversionResult {
    pub output_elements: Vec<BackusNaurProduction>,
    pub new_variables: Vec<char>,
    pub new_replacers: Vec<(ExtendedBackusNaurProduction, Variable)>,
    pub new_rules: Vec<(Variable, ExtendedBackusNaurProduction)>,
}

/// The mathematical value of an [`ElementConversionResult`].
pub struct Conversion {
    pub output_element: Bnf,
    pub new_variables: Seq<char>,
    pub new_replacers: Seq<(Ebnf, Variable)>,
    pub new_rules: Seq<(Variable, Ebnf)>,
}

/// The mathematical value of an [`ElementsConversionResult`].
pub struct Conversions {
    pub output_elements: Seq<Bnf>,
    pub new_variables: Seq<char>,
    pub new_replacers: Seq<(Ebnf, Variable)>,
    pub new_rules: Seq<(Variable, Ebnf)>,
}

/// The trees of a list of replacers, each with its variable, in order.
pub open spec fn replacer_models(replacers: Seq<(ExtendedBackusNaurProduction, Variable)>) -> Seq<
    (Ebnf, Variable),
> {
    Seq::new(replacers.len(), |i: int| (replacers[i].0@, replacers[i].1))
}

/// The trees of a list of rules, each with its variable, in order.
pub open spec fn rule_models(rules: Seq<(Variable, ExtendedBackusNaurProduction)>) -> Seq<
    (Variable, Ebnf),
> {
    Seq::new(rules.len(), |i: int| (rules[i].0, rules[i].1@))
}

impl Conversion {
    /// The outcome that replaces a production and mints nothing.
    pub open spec fn simple(output_element: Bnf) -> Conversion {
        Conversion {
            output_element,
            new_variables: Seq::empty(),
            new_replacers: Seq::empty(),
            new_rules: Seq::empty(),
        }
    }
}

impl Conversions {
    /// The outcome of rewriting no production at all.
    pub open spec fn empty() -> Conversions {
        Conversions {
            output_elements: Seq::empty(),
            new_variables: Seq::empty(),
            new_replacers: Seq::empty(),
            new_rules: Seq::empty(),
        }
    }

    /// This outcome followed by that of one more production: the outputs,
    /// variables, replacers and rules of `next` come behind those collected
    /// so far.
    pub open spec fn followed_by(self, next: Conversion) -> Conversions {
        Conversions {
            output_elements: self.output_elements.push(next.output_element),
            new_variables: self.new_variables + next.new_variables,
            new_replacers: self.new_replacers + next.new_replacers,
            new_rules: self.new_rules + next.new_rules,
        }
    }

    /// The outcome for an alternative over the productions rewritten here.
    pub open spec fn as_alternative(self) -> Conversion {
        Conversion {
            output_element: Bnf::Alternative(self.output_elements),
            new_variables: self.new_variables,
            new_replacers: self.new_replacers,
            new_rules: self.new_rules,
        }
    }

    /// The outcome for a sequence of the productions rewritten here.
    pub open spec fn as_sequence(self) -> Conversion {
        Conversion {
            output_element: Bnf::Sequence(self.output_elements),
            new_variables: self.new_variables,
            new_replacers: self.new_replacers,
            new_rules: self.new_rules,
        }
    }
}

impl View for ElementConversionResult {
    type V = Conversion;

    open spec fn view(&self) -> Conversion {
        Conversion {
            output_element: self.output_element@,
            new_variables: self.new_variables@,
            new_replacers: replacer_models(self.new_replacers@),
            new_rules: rule_models(self.new_rules@),
        }
    }
}

impl View for ElementsConversionResult {
    type V = Conversions;

    open spec fn view(&self) -> Conversions {
        Conversions {
            output_elements: BackusNaurProduction::models(self.output_elements@),
            new_variables: self.new_variables@,
            new_replacers: replacer_models(self.new_replacers@),
            new_rules: rule_models(self.new_rules@),
        }
    }
}

impl ElementConversionResult {
    /// The result that replaces a production by `output_element` and mints
    /// nothing.
    pub fn simple(output_element: BackusNaurProduction) -> (result: Self)
        ensures
            result@ == Conversion::simple(output_element@),
    {
        let result = Self {
            output_element,
            new_variables: Vec::new(),
            new_replacers: Vec::new(),
            new_rules: Vec::new(),
        };
        assert(result@.new_replacers =~= Seq::empty());
        assert(result@.new_rules =~= Seq::empty());
        result
    }
}

impl ElementsConversionResult {
    /// The result of rewriting no production at all.
    pub fn empty() -> (result: Self)
        ensures
            result@ == Conversions::empty(),
    {
        let result = Self {
            output_elements: Vec::new(),
            new_variables: Vec::new(),
            new_replacers: Vec::new(),
            new_rules: Vec::new(),
        };
        assert(result@.output_elements =~= Seq::empty());
        assert(result@.new_replacers =~= Seq::empty());
        assert(result@.new_rules =~= Seq::empty());
        result
    }
}

} // verus!
