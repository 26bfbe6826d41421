//! Atomic grammar symbols.

use crate::text::push_char;
use vstd::prelude::*;

verus! {

/// A symbol that appears literally in recognized strings.
#[derive(Debug, PartialEq, Eq, Structural, Hash, Copy, Clone)]
pub struct Terminal(pub char);

/// A nonterminal symbol, standing for a family of productions.
#[derive(Debug, PartialEq, Eq, Structural, Hash, Copy, Clone)]
pub struct Variable(pub char);

impl Terminal {
    /// The text of a terminal: its symbol between single quotes.
    pub open spec fn rendering(self) -> Seq<char> {
        seq!['\'', self.0, '\'']
    }

    /// Appends the text of this terminal to `out`.
    pub fn write_to(&self, out: &mut String)
        ensures
            final(out)@ == old(out)@ + self.rendering(),
    {
        push_char(out, '\'');
        push_char(out, self.0);
        push_char(out, '\'');
        assert(out@ =~= old(out)@ + self.rendering());
    }

    /// The text of this terminal.
    pub fn render(&self) -> (text: String)
        ensures
            text@ == self.rendering(),
    {
        let mut text = String::new();
        self.write_to(&mut text);
        assert(text@ =~= self.rendering());
        text
    }
}

impl Variable {
    /// The text of a variable: its symbol alone.
    pub open spec fn rendering(self) -> Seq<char> {
        seq![self.0]
    }

    /// Appends the text of this variable to `out`.
    pub fn write_to(&self, out: &mut String)
        ensures
            final(out)@ == old(out)@ + self.rendering(),
    {
        push_char(out, self.0);
        assert(out@ =~= old(out)@ + self.rendering());
    }

    /// The text of this variable.
    pub fn render(&self) -> (text: String)
        ensures
            text@ == self.rendering(),
    {
        let mut text = String::new();
        self.write_to(&mut text);
        assert(text@ =~= self.rendering());
        text
    }
}

/// Whether `symbol` occurs in `symbols`.
pub(crate) fn contains_symbol(symbols: &Vec<char>, symbol: char) -> (found: bool)
    ensures
        found == symbols@.contains(symbol),
{
    let mut index: usize = 0;
    while index < symbols.len()
        invariant
            index <= symbols@.len(),
            forall|i: int| 0 <= i < index ==> symbols@[i] != symbol,
        decreases symbols@.len() - index,
    {
        if symbols[index] == symbol {
            return true;
        }
        index += 1;
    }
    false
}

/// Whether `code` is the code point of a symbol: any up to `0x10FFFF` but
/// those of the surrogate range.
pub open spec fn is_symbol_code(code: u32) -> bool {
    code <= 0xD7FF || (0xE000 <= code && code <= 0x10FFFF)
}

/// The symbol with the given code point, where there is one.
///
/// Trusted: this is `char::from_u32`, which gives the symbol for every code
/// point up to `0x10FFFF` outside the surrogate range and nothing otherwise.
#[verifier::external_body]
pub(crate) fn symbol_from_code(code: u32) -> (symbol: Option<char>)
    ensures
        symbol == (if is_symbol_code(code) {
            Some(code as char)
        } else {
            None::<char>
        }),
{
    char::from_u32(code)
}

} // verus!
