//! Symbols: the atomic units of text.
//!
//! A symbol is one character of text. The byte-oriented view of a symbol
//! (a leading byte plus its continuation bytes) is reflected by
//! [`char_width`], which reads the encoded width off the leading byte.

use vstd::prelude::*;
use vstd::string::StrSliceExecFns;
use vstd::utf8::encode_utf8;
use crate::strutil::string_of_char;

verus! {

/// Byte width of a symbol, deduced from its first byte's high nibble.
pub fn char_width(byte: u8) -> (w: usize)
    ensures
        w == spec_char_width(byte),
{
    let nibble = byte >> 4;
    if nibble < 12 {
        1
    } else if nibble < 14 {
        2
    } else if nibble == 14 {
        3
    } else {
        4
    }
}

/// Byte width of a symbol as a function of its first byte's high nibble.
pub open spec fn spec_char_width(byte: u8) -> int {
    if byte >> 4 < 12 {
        1
    } else if byte >> 4 < 14 {
        2
    } else if byte >> 4 == 14 {
        3
    } else {
        4
    }
}

/// One symbol of text, held as its textual form.
#[derive(Debug)]
pub struct Symbol {
    symbol: String,
}

impl View for Symbol {
    type V = Seq<char>;

    closed spec fn view(&self) -> Seq<char> {
        self.symbol@
    }
}

impl PartialEq for Symbol {
    fn eq(&self, other: &Symbol) -> (r: bool) {
        self.symbol == other.symbol
    }
}

impl vstd::std_specs::cmp::PartialEqSpecImpl for Symbol {
    open spec fn obeys_eq_spec() -> bool {
        true
    }

    open spec fn eq_spec(&self, other: &Symbol) -> bool {
        self@ == other@
    }
}

impl Symbol {
    /// The symbol whose textual form is `slice`.
    pub fn from_str(slice: &str) -> (s: Symbol)
        ensures
            s@ == slice@,
    {
        Symbol { symbol: String::from_str(slice) }
    }

    /// The symbol of a single ASCII byte.
    pub fn from_u8(byte: u8) -> (s: Symbol)
        requires
            byte < 128,
        ensures
            s@ == seq![byte as char],
    {
        Symbol { symbol: string_of_char(byte as char) }
    }

    /// The symbol of a sequence of ASCII bytes.
    pub fn from_vec_of_u8(symbol: Vec<u8>) -> (s: Symbol)
        requires
            forall|i: int| 0 <= i < symbol@.len() ==> symbol@[i] < 128,
        ensures
            s@ == symbol@.map_values(|b: u8| b as char),
    {
        let mut text = String::new();
        let mut i: usize = 0;
        while i < symbol.len()
            invariant
                i <= symbol@.len(),
                forall|k: int| 0 <= k < symbol@.len() ==> symbol@[k] < 128,
                text@ == symbol@.subrange(0, i as int).map_values(|b: u8| b as char),
            decreases symbol@.len() - i,
        {
            let c = string_of_char(symbol[i] as char);
            text.append(c.as_str());
            i = i + 1;
            proof {
                assert(symbol@.subrange(0, i as int).map_values(|b: u8| b as char)
                    =~= symbol@.subrange(0, i - 1).map_values(|b: u8| b as char)
                        + seq![symbol@[i - 1] as char]);
            }
        }
        proof {
            assert(symbol@.subrange(0, symbol@.len() as int) =~= symbol@);
        }
        Symbol { symbol: text }
    }

    /// The textual form of the symbol.
    pub fn as_str(&self) -> (r: &str)
        ensures
            r@ == self@,
    {
        self.symbol.as_str()
    }

    /// The textual form of the symbol as an owned string.
    pub fn as_string(&self) -> (r: String)
        ensures
            r@ == self@,
    {
        self.symbol.clone()
    }

    /// The encoded bytes of the symbol.
    pub fn as_bytes_ref(&self) -> (r: Vec<u8>)
        ensures
            r@ == encode_utf8(self@),
    {
        self.symbol.as_str().as_bytes_vec()
    }

    /// A copy of the symbol.
    pub fn duplicate(&self) -> (s: Symbol)
        ensures
            s@ == self@,
    {
        Symbol { symbol: self.symbol.clone() }
    }
}

} // verus!

verus! {

/// Iterator over the symbols of a text, one character at a time.
pub struct SymbolIterator {
    pub idx: usize,
    pub text: Vec<char>,
    pub text_length: usize,
}

impl SymbolIterator {
    /// The next symbol, or `None` past the end of the text.
    pub fn next(&mut self) -> (r: Option<Symbol>)
        ensures
            final(self).text == old(self).text,
            final(self).text_length == old(self).text_length,
            if old(self).idx < old(self).text@.len() && old(self).idx < old(self).text_length {
                &&& r is Some
                &&& r->0@ == seq![old(self).text@[old(self).idx as int]]
                &&& final(self).idx == old(self).idx + 1
            } else {
                r is None && final(self).idx == old(self).idx
            },
    {
        if self.idx >= self.text_length || self.idx >= self.text.len() {
            return None;
        }
        let single = string_of_char(self.text[self.idx]);
        let symbol = Symbol::from_str(single.as_str());
        self.idx = self.idx + 1;
        Some(symbol)
    }
}

/// Access to a text's symbols.
pub trait SymbolExt {
    /// The characters of the text.
    spec fn text_chars(&self) -> Seq<char>;

    /// Iterate the symbols of the text, from the first.
    fn get_symbols(&self) -> (it: SymbolIterator)
        ensures
            it.idx == 0,
            it.text@ == self.text_chars(),
            it.text_length == self.text_chars().len(),
    ;
}

impl SymbolExt for str {
    open spec fn text_chars(&self) -> Seq<char> {
        self@
    }

    fn get_symbols(&self) -> (it: SymbolIterator) {
        let text = crate::strutil::chars_of(self);
        let text_length = text.len();
        SymbolIterator { idx: 0, text, text_length }
    }
}

} // verus!
