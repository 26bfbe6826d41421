//! Fresh variables for the rules that rewriting adds to a grammar.

use crate::model::{contains_symbol, is_symbol_code, symbol_from_code, Variable};
use vstd::prelude::*;

verus! {

/// Why a rewriting could not be carried out.
#[derive(Debug, PartialEq, Eq, Structural, Clone, Copy)]
pub enum ConversionError {
    /// Every identifier from the allocator's position upward is in use.
    IdentifiersExhausted,
}

/// What an allocator knows: where its search for the next identifier starts,
/// and which identifiers it must not hand out.
pub struct AllocatorState {
    pub next: nat,
    pub in_use: Set<char>,
}

impl AllocatorState {
    /// Whether the symbol with code point `code` can still be handed out.
    pub open spec fn offers(self, code: u32) -> bool {
        self.next <= code && is_symbol_code(code) && !self.in_use.contains(code as char)
    }

    /// Whether no identifier is left.
    pub open spec fn exhausted(self) -> bool {
        forall|code: u32| !self.offers(code)
    }

    /// Whether `code` is the least code point of a symbol that can still be
    /// handed out.
    pub open spec fn is_least_offer(self, code: u32) -> bool {
        self.offers(code) && forall|other: u32| self.offers(other) ==> code <= other
    }

    /// The identifier handed out next, where one is left: the free symbol
    /// with the least code point.
    pub open spec fn fresh(self) -> char {
        (choose|code: u32| self.is_least_offer(code)) as char
    }

    /// The state after `variable` has been handed out.
    pub open spec fn after(self, variable: char) -> AllocatorState {
        AllocatorState { next: (variable as u32 + 1) as nat, in_use: self.in_use.insert(variable) }
    }

    /// The least offer is the only one: `fresh` names its symbol.
    pub proof fn lemma_least_offer_is_fresh(self, code: u32)
        requires
            self.is_least_offer(code),
        ensures
            !self.exhausted(),
            self.fresh() == code as char,
    {
        let chosen = choose|code: u32| self.is_least_offer(code);
        assert(self.is_least_offer(chosen));
        assert(self.offers(code));
        assert(chosen <= code && code <= chosen);
    }

    /// While identifiers are left, `fresh` is free, and no free symbol has a
    /// lesser code point.
    pub proof fn lemma_fresh_is_least_offer(self)
        requires
            !self.exhausted(),
        ensures
            self.is_least_offer(self.fresh() as u32),
            !self.in_use.contains(self.fresh()),
            self.next <= self.fresh() as u32,
    {
        let some = choose|code: u32| self.offers(code);
        self.lemma_least_below(some);
        let chosen = choose|code: u32| self.is_least_offer(code);
        assert(self.is_least_offer(chosen));
        assert((chosen as char) as u32 == chosen);
    }

    /// Below any offer there is a least one.
    proof fn lemma_least_below(self, offer: u32)
        requires
            self.offers(offer),
        ensures
            exists|code: u32| self.is_least_offer(code),
        decreases offer,
    {
        if exists|lesser: u32| self.offers(lesser) && lesser < offer {
            let lesser = choose|lesser: u32| self.offers(lesser) && lesser < offer;
            self.lemma_least_below(lesser);
        } else {
            assert(self.is_least_offer(offer));
        }
    }
}

/// Hands out variables that a grammar does not use yet, each one once, in
/// ascending order of their symbols.
pub struct VariableAllocator {
    next: u32,
    in_use: Vec<char>,
}

impl View for VariableAllocator {
    type V = AllocatorState;

    closed spec fn view(&self) -> AllocatorState {
        AllocatorState { next: self.next as nat, in_use: self.in_use@.to_set() }
    }
}

impl VariableAllocator {
    /// An allocator for a grammar that uses the variables `in_use`. It hands
    /// out the free symbols from `'A'` upward.
    pub fn new(in_use: Vec<char>) -> (allocator: Self)
        ensures
            allocator@ == (AllocatorState { next: 'A' as u32 as nat, in_use: in_use@.to_set() }),
    {
        VariableAllocator { next: 0x41, in_use }
    }

    /// An allocator for a grammar that uses the variables `in_use`. It hands
    /// out the free symbols from `first` upward.
    pub fn starting_at(first: char, in_use: Vec<char>) -> (allocator: Self)
        ensures
            allocator@ == (AllocatorState { next: first as u32 as nat, in_use: in_use@.to_set() }),
    {
        VariableAllocator { next: first as u32, in_use }
    }

    /// Whether `variable` is in use: given at the start or handed out since.
    pub fn is_in_use(&self, variable: char) -> (used: bool)
        ensures
            used == self@.in_use.contains(variable),
    {
        contains_symbol(&self.in_use, variable)
    }

    /// Hands out the least symbol that is still free and marks it as in use.
    /// Fails, and changes nothing, where no symbol is left.
    pub fn next_variable(&mut self) -> (minted: Result<Variable, ConversionError>)
        ensures
            match minted {
                Ok(variable) => {
                    &&& !old(self)@.exhausted()
                    &&& variable.0 == old(self)@.fresh()
                    &&& final(self)@ == old(self)@.after(variable.0)
                },
                Err(error) => {
                    &&& old(self)@.exhausted()
                    &&& error == ConversionError::IdentifiersExhausted
                    &&& final(self)@ == old(self)@
                },
            },
    {
        let mut code: u32 = self.next;
        while code <= 0x10FFFF
            invariant
                *self == *old(self),
                self.next <= code,
                code <= 0x110000 || code == self.next,
                forall|lesser: u32| lesser < code ==> !self@.offers(lesser),
            decreases 0x110000 - code,
        {
            match symbol_from_code(code) {
                Some(symbol) => {
                    if !contains_symbol(&self.in_use, symbol) {
                        proof {
                            assert(old(self)@.is_least_offer(code));
                            old(self)@.lemma_least_offer_is_fresh(code);
                        }
                        self.in_use.push(symbol);
                        self.next = code + 1;
                        proof {
                            assert(self.in_use@.to_set() =~= old(self).in_use@.to_set().insert(
                                symbol,
                            )) by {
                                assert forall|c: char|
                                    self.in_use@.to_set().contains(c) <==> old(
                                        self,
                                    ).in_use@.to_set().insert(symbol).contains(c) by {
                                    if old(self).in_use@.contains(c) {
                                        let i = choose|i: int|
                                            0 <= i < old(self).in_use@.len() && old(
                                                self,
                                            ).in_use@[i] == c;
                                        assert(self.in_use@[i] == c);
                                    }
                                    if c == symbol {
                                        assert(self.in_use@[self.in_use@.len() - 1] == c);
                                    }
                                }
                            }
                        }
                        return Ok(Variable(symbol));
                    }
                },
                None => {},
            }
            code += 1;
        }
        Err(ConversionError::IdentifiersExhausted)
    }
}

} // verus!
