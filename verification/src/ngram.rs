//! Character n-gram iteration over plain strings.

use vstd::prelude::*;
use crate::strutil::{chars_of, chars_to_string};

verus! {

/// Byte width of a symbol, deduced from its first byte's high nibble.
pub fn char_width(byte: u8) -> (w: usize)
    ensures
        w == crate::models::symbol::spec_char_width(byte),
{
    crate::models::symbol::char_width(byte)
}

/// Iterator over the consecutive character n-grams of a text.
pub struct CharNgrams {
    text: Vec<char>,
    idx: usize,
    n: usize,
}

impl CharNgrams {
    /// The characters iterated over.
    pub closed spec fn text_view(&self) -> Seq<char> {
        self.text@
    }

    /// The current window position.
    pub closed spec fn pos(&self) -> int {
        self.idx as int
    }

    /// The window width.
    pub closed spec fn width(&self) -> int {
        self.n as int
    }

    /// The character span of the next n-gram, or `None` once the window has
    /// passed the end of the text.
    pub fn next_span(&mut self) -> (r: Option<(usize, usize)>)
        ensures
            final(self).text_view() == old(self).text_view(),
            final(self).width() == old(self).width(),
            if old(self).pos() + old(self).width() <= old(self).text_view().len() {
                &&& r is Some
                &&& (r->0).0 == old(self).pos()
                &&& (r->0).1 == old(self).pos() + old(self).width()
                &&& final(self).pos() == old(self).pos() + 1
            } else {
                r is None && final(self).pos() == old(self).pos()
            },
    {
        proof {
            use_type_invariant(&*self);
        }
        if self.text.len() < self.n || self.idx > self.text.len() - self.n {
            return None;
        }
        let start = self.idx;
        self.idx = self.idx + 1;
        Some((start, start + self.n))
    }

    /// The next n-gram, or `None` once the window has passed the end of the
    /// text.
    pub fn next(&mut self) -> (r: Option<String>)
        ensures
            final(self).text_view() == old(self).text_view(),
            final(self).width() == old(self).width(),
            if old(self).pos() + old(self).width() <= old(self).text_view().len() {
                &&& r is Some
                &&& r->0@ == old(self).text_view().subrange(
                    old(self).pos(),
                    old(self).pos() + old(self).width(),
                )
                &&& final(self).pos() == old(self).pos() + 1
            } else {
                r is None && final(self).pos() == old(self).pos()
            },
    {
        match self.next_span() {
            Some(span) => Some(chars_to_string(&self.text, span.0, span.1)),
            None => None,
        }
    }

    #[verifier::type_invariant]
    closed spec fn type_inv(&self) -> bool {
        &&& self.idx <= self.text@.len()
        &&& self.n >= 1
    }
}

/// Iterator over the consecutive character n-grams of a text, with their
/// character positions.
pub struct CharNgramIndices {
    inner: CharNgrams,
}

impl CharNgramIndices {
    /// The characters iterated over.
    pub closed spec fn text_view(&self) -> Seq<char> {
        self.inner.text_view()
    }

    /// The current window position.
    pub closed spec fn pos(&self) -> int {
        self.inner.pos()
    }

    /// The window width.
    pub closed spec fn width(&self) -> int {
        self.inner.width()
    }

    /// The next position and n-gram, or `None` once the window has passed
    /// the end of the text.
    pub fn next(&mut self) -> (r: Option<(usize, String)>)
        ensures
            if old(self).pos() + old(self).width() <= old(self).text_view().len() {
                &&& r is Some
                &&& (r->0).0 == old(self).pos()
                &&& (r->0).1@ == old(self).text_view().subrange(
                    old(self).pos(),
                    old(self).pos() + old(self).width(),
                )
            } else {
                r is None
            },
    {
        let r = self.inner.next_span();
        match r {
            Some(span) => {
                proof {
                    assert(span.1 <= self.inner.text_view().len());
                }
                Some((span.0, chars_to_string(&self.inner.text, span.0, span.1)))
            },
            None => None,
        }
    }
}

/// Character n-gram iteration over plain strings.
pub trait NgramExt {
    /// The characters of the text.
    spec fn chars_view(&self) -> Seq<char>;

    /// Iterate the character n-grams of width `n`, from the first.
    fn char_ngrams(&self, n: usize) -> (it: CharNgrams)
        requires
            n >= 1,
        ensures
            it.text_view() == self.chars_view(),
            it.pos() == 0,
            it.width() == n,
    ;

    /// Iterate the character n-grams of width `n` with their positions,
    /// from the first.
    fn char_ngram_indices(&self, n: usize) -> (it: CharNgramIndices)
        requires
            n >= 1,
        ensures
            it.text_view() == self.chars_view(),
            it.pos() == 0,
            it.width() == n,
    ;
}

impl NgramExt for str {
    open spec fn chars_view(&self) -> Seq<char> {
        self@
    }

    fn char_ngrams(&self, n: usize) -> (it: CharNgrams) {
        let text = chars_of(self);
        CharNgrams { text, idx: 0, n }
    }

    fn char_ngram_indices(&self, n: usize) -> (it: CharNgramIndices) {
        CharNgramIndices { inner: self.char_ngrams(n) }
    }
}

} // verus!

verus! {

/// Iterator over the byte offsets at which a text's characters start.
pub struct CharOffsets {
    pub offsets: Vec<usize>,
    pub idx: usize,
}

impl CharOffsets {
    /// The next character's byte offset.
    pub fn next(&mut self) -> (r: Option<usize>)
        ensures
            final(self).offsets == old(self).offsets,
            if old(self).idx + 1 < old(self).offsets@.len() {
                r == Some(old(self).offsets@[old(self).idx as int]) && final(self).idx == old(
                    self,
                ).idx + 1
            } else {
                r is None && final(self).idx == old(self).idx
            },
    {
        if self.idx < self.offsets.len() && self.idx + 1 < self.offsets.len() {
            let v = self.offsets[self.idx];
            self.idx = self.idx + 1;
            Some(v)
        } else {
            None
        }
    }
}

/// The byte offsets at which the characters of `text` start, in order.
pub fn char_offsets(text: &str) -> (r: CharOffsets)
    ensures
        r.idx == 0,
        r.offsets@.len() == text@.len() + 1,
        forall|i: int|
            0 <= i <= text@.len() ==> r.offsets@[i] == crate::models::byte_offset(text@, i),
{
    CharOffsets { offsets: crate::models::byte_offsets(text), idx: 0 }
}

} // verus!
