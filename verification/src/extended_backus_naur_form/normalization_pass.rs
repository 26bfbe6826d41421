//! The state that one pass of rewriting carries from production to
//! production: the allocator of fresh variables and the repeated productions
//! that already have a variable.

use crate::extended_backus_naur_form::ebnf_element::{Ebnf, ExtendedBackusNaurProduction};
use crate::extended_backus_naur_form::element_conversion_result::replacer_models;
use crate::extended_backus_naur_form::variable_allocator::{
    AllocatorState,
    ConversionError,
    VariableAllocator,
};
use crate::model::Variable;
use vstd::prelude::*;

verus! {

/// The mathematical value of a [`NormalizationPass`].
pub struct PassState {
    pub allocator: AllocatorState,
    pub replacers: Map<Ebnf, Variable>,
}

/// The map that a list of replacers stands for. Where a production occurs
/// twice, its later entry counts.
pub open spec fn replacer_map(entries: Seq<(Ebnf, Variable)>) -> Map<Ebnf, Variable>
    decreases entries.len(),
{
    if entries.len() == 0 {
        Map::empty()
    } else {
        replacer_map(entries.drop_last()).insert(entries.last().0, entries.last().1)
    }
}

/// A production is a key of the map of `entries` exactly when it stands in
/// one of them, and the last such entry gives its variable.
pub proof fn lemma_replacer_map(entries: Seq<(Ebnf, Variable)>, key: Ebnf)
    ensures
        replacer_map(entries).contains_key(key) <==> exists|i: int|
            0 <= i < entries.len() && (#[trigger] entries[i]).0 == key,
        forall|i: int|
            0 <= i < entries.len() && (#[trigger] entries[i]).0 == key && (forall|j: int|
                i < j < entries.len() ==> (#[trigger] entries[j]).0 != key) ==> replacer_map(
                entries,
            )[key] == entries[i].1,
    decreases entries.len(),
{
    if entries.len() > 0 {
        let earlier = entries.drop_last();
        lemma_replacer_map(earlier, key);
        let last = entries.len() - 1;
        if entries[last].0 == key {
        } else {
            if replacer_map(entries).contains_key(key) {
                let i = choose|i: int| 0 <= i < earlier.len() && (#[trigger] earlier[i]).0 == key;
                assert(entries[i].0 == key);
            }
            if exists|i: int| 0 <= i < entries.len() && (#[trigger] entries[i]).0 == key {
                let i = choose|i: int| 0 <= i < entries.len() && (#[trigger] entries[i]).0 == key;
                assert(earlier[i].0 == key);
            }
            assert forall|i: int|
                0 <= i < entries.len() && (#[trigger] entries[i]).0 == key && (forall|j: int|
                    i < j < entries.len() ==> (#[trigger] entries[j]).0 != key) implies replacer_map(
                entries,
            )[key] == entries[i].1 by {
                assert(earlier[i].0 == key);
                assert forall|j: int| i < j < earlier.len() implies (#[trigger] earlier[j]).0
                    != key by {
                    assert(entries[j].0 != key);
                }
            }
        }
    }
}

impl PassState {
    /// The state in which a pass starts on a grammar that uses the variables
    /// `in_use`: symbols are handed out from `'A'` upward, and no repeated
    /// production has a variable yet.
    pub open spec fn starting(in_use: Set<char>) -> PassState {
        PassState {
            allocator: AllocatorState { next: 'A' as u32 as nat, in_use },
            replacers: Map::empty(),
        }
    }

    /// Whether this state can have come from `earlier`: nothing that was in
    /// use or had a variable then has been forgotten or changed.
    pub open spec fn extends(self, earlier: PassState) -> bool {
        &&& earlier.allocator.next <= self.allocator.next
        &&& earlier.allocator.in_use.subset_of(self.allocator.in_use)
        &&& earlier.replacers.submap_of(self.replacers)
    }
}

/// One pass of rewriting over the productions of a grammar.
pub struct NormalizationPass {
    allocator: VariableAllocator,
    replacers: Vec<(ExtendedBackusNaurProduction, Variable)>,
}

impl View for NormalizationPass {
    type V = PassState;

    closed spec fn view(&self) -> PassState {
        PassState {
            allocator: self.allocator@,
            replacers: replacer_map(replacer_models(self.replacers@)),
        }
    }
}

impl NormalizationPass {
    /// A pass over a grammar that uses the variables `in_use`.
    pub fn new(in_use: Vec<char>) -> (pass: Self)
        ensures
            pass@ == PassState::starting(in_use@.to_set()),
    {
        let pass = NormalizationPass { allocator: VariableAllocator::new(in_use), replacers: Vec::new() };
        assert(replacer_models(pass.replacers@) =~= Seq::empty());
        pass
    }

    /// A pass that takes its fresh variables from `allocator`.
    pub fn with_allocator(allocator: VariableAllocator) -> (pass: Self)
        ensures
            pass@ == (PassState { allocator: allocator@, replacers: Map::empty() }),
    {
        let pass = NormalizationPass { allocator, replacers: Vec::new() };
        assert(replacer_models(pass.replacers@) =~= Seq::empty());
        pass
    }

    /// The variable that stands for the repeated production `key`, where one
    /// was minted in this pass.
    pub fn replacer_for(&self, key: &ExtendedBackusNaurProduction) -> (known: Option<Variable>)
        ensures
            known == (if self@.replacers.contains_key(key@) {
                Some(self@.replacers[key@])
            } else {
                None::<Variable>
            }),
    {
        let ghost entries = replacer_models(self.replacers@);
        let mut index: usize = self.replacers.len();
        while index > 0
            invariant
                index <= self.replacers@.len(),
                entries == replacer_models(self.replacers@),
                forall|j: int| index <= j < entries.len() ==> (#[trigger] entries[j]).0 != key@,
            decreases index,
        {
            index -= 1;
            if self.replacers[index].0.same_as(key) {
                proof {
                    lemma_replacer_map(entries, key@);
                    assert(entries[index as int].0 == key@);
                }
                return Some(self.replacers[index].1);
            }
        }
        proof {
            lemma_replacer_map(entries, key@);
        }
        None
    }

    /// Hands out a fresh variable, or fails where none is left.
    pub(crate) fn next_variable(&mut self) -> (minted: Result<Variable, ConversionError>)
        ensures
            match minted {
                Ok(variable) => {
                    &&& !old(self)@.allocator.exhausted()
                    &&& variable.0 == old(self)@.allocator.fresh()
                    &&& final(self)@ == (PassState {
                        allocator: old(self)@.allocator.after(variable.0),
                        replacers: old(self)@.replacers,
                    })
                },
                Err(error) => {
                    &&& old(self)@.allocator.exhausted()
                    &&& error == ConversionError::IdentifiersExhausted
                    &&& final(self)@ == old(self)@
                },
            },
    {
        self.allocator.next_variable()
    }

    /// Lets `variable` stand for the repeated production `key` from now on.
    pub(crate) fn remember(&mut self, key: ExtendedBackusNaurProduction, variable: Variable)
        ensures
            final(self)@ == (PassState {
                allocator: old(self)@.allocator,
                replacers: old(self)@.replacers.insert(key@, variable),
            }),
    {
        self.replacers.push((key, variable));
        proof {
            let before = replacer_models(old(self).replacers@);
            let now = replacer_models(self.replacers@);
            assert(now.drop_last() =~= before);
            assert(now.last() == (key@, variable));
        }
    }
}

} // verus!
