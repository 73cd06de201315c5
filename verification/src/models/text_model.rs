//! The text model: a filtered, optionally boundary-padded symbol sequence,
//! and the sliding n-gram windows over it.

use vstd::prelude::*;
use crate::models::sigma::{singleton_views, Sigma};
use crate::models::symbol::Symbol;
use crate::models::{views_of, window_at};
use crate::strutil::{chars_of, string_of_char};

verus! {

broadcast use vstd::prelude::Seq::lemma_flatten_push;

/// A run of marker symbols put before and after a text, so that n-grams
/// capture the text's beginning and end.
pub struct Confix {
    confix: Vec<Symbol>,
}

impl View for Confix {
    type V = Seq<Seq<char>>;

    closed spec fn view(&self) -> Seq<Seq<char>> {
        views_of(self.confix@)
    }
}

impl Confix {
    /// `ngram_length` copies of the marker symbol.
    pub fn new(marker_symbol: &Symbol, ngram_length: usize) -> (c: Confix)
        ensures
            c@ == Seq::new(ngram_length as nat, |i: int| marker_symbol@),
    {
        let mut confix: Vec<Symbol> = Vec::new();
        let mut i: usize = 0;
        while i < ngram_length
            invariant
                i <= ngram_length,
                confix@.len() == i,
                forall|k: int| 0 <= k < i ==> (#[trigger] confix@[k])@ == marker_symbol@,
            decreases ngram_length - i,
        {
            let m = marker_symbol.duplicate();
            confix.push(m);
            i = i + 1;
        }
        let c = Confix { confix };
        proof {
            assert forall|k: int| 0 <= k < ngram_length implies c@[k]
                == Seq::new(ngram_length as nat, |i: int| marker_symbol@)[k] by {
                assert(c@[k] == confix@[k]@);
            }
            assert(c@ =~= Seq::new(ngram_length as nat, |i: int| marker_symbol@));
        }
        c
    }

    /// The symbols with the confix put before and after them.
    pub fn add_to_symbols(&self, symbols: &Vec<Symbol>) -> (r: Vec<Symbol>)
        ensures
            views_of(r@) == self@ + views_of(symbols@) + self@,
    {
        let mut r: Vec<Symbol> = copy_symbol_vec(&self.confix);
        let mut mid: Vec<Symbol> = copy_symbol_vec(symbols);
        let mut end: Vec<Symbol> = copy_symbol_vec(&self.confix);
        let ghost a = r@;
        let ghost b = mid@;
        let ghost c = end@;
        r.append(&mut mid);
        r.append(&mut end);
        proof {
            let goal = self@ + views_of(symbols@) + self@;
            assert(r@ == a + b + c);
            assert forall|k: int| 0 <= k < r@.len() implies views_of(r@)[k] == goal[k] by {
                assert(views_of(r@)[k] == r@[k]@);
                if k < a.len() {
                    assert(r@[k] == a[k]);
                    assert(a[k]@ == self.confix@[k]@);
                    assert(goal[k] == views_of(self.confix@)[k]);
                    assert(views_of(self.confix@)[k] == self.confix@[k]@);
                } else if k < a.len() + b.len() {
                    let j = k - a.len();
                    assert(r@[k] == b[j]);
                    assert(b[j]@ == symbols@[j]@);
                    assert(goal[k] == views_of(symbols@)[j]);
                    assert(views_of(symbols@)[j] == symbols@[j]@);
                } else {
                    let j = k - a.len() - b.len();
                    assert(r@[k] == c[j]);
                    assert(c[j]@ == self.confix@[j]@);
                    assert(goal[k] == views_of(self.confix@)[j]);
                    assert(views_of(self.confix@)[j] == self.confix@[j]@);
                }
            }
            assert(views_of(r@) =~= goal);
        }
        r
    }
}

/// An exact copy of a symbol list.
fn copy_symbol_vec(v: &Vec<Symbol>) -> (r: Vec<Symbol>)
    ensures
        r@.len() == v@.len(),
        forall|k: int| 0 <= k < v@.len() ==> (#[trigger] r@[k])@ == v@[k]@,
        views_of(r@) == views_of(v@),
{
    let mut r: Vec<Symbol> = Vec::new();
    let mut i: usize = 0;
    while i < v.len()
        invariant
            i <= v@.len(),
            r@.len() == i,
            forall|k: int| 0 <= k < i ==> (#[trigger] r@[k])@ == v@[k]@,
        decreases v@.len() - i,
    {
        let s = v[i].duplicate();
        r.push(s);
        i = i + 1;
    }
    proof {
        assert forall|k: int| 0 <= k < r@.len() implies views_of(r@)[k] == views_of(v@)[k] by {
            assert(views_of(r@)[k] == r@[k]@);
            assert(views_of(v@)[k] == v@[k]@);
        }
        assert(views_of(r@) =~= views_of(v@));
    }
    r
}

/// The characters of `text` that are members of the alphabet given by
/// `sigma_views`, in order.
pub open spec fn filtered_chars(text: Seq<char>, sigma_views: Seq<Seq<char>>) -> Seq<char> {
    text.filter(|c: char| sigma_views.contains(seq![c]))
}

/// A text held as its alphabet-filtered symbols, together with the alphabet
/// and the optional boundary padding.
pub struct TextModel {
    set_confix: Option<Confix>,
    sigma: Sigma,
    symbols: Vec<Symbol>,
}

impl TextModel {
    /// The textual forms of the filtered symbols gathered so far.
    pub closed spec fn raw_views(&self) -> Seq<Seq<char>> {
        views_of(self.symbols@)
    }

    /// The textual forms of the padding, empty when no marker is set.
    pub closed spec fn pad_views(&self) -> Seq<Seq<char>> {
        match self.set_confix {
            Some(c) => c@,
            None => Seq::empty(),
        }
    }

    /// The textual forms of the alphabet's symbols.
    pub closed spec fn sigma_views(&self) -> Seq<Seq<char>> {
        self.sigma.sym_views()
    }

    /// Whether the one-character text of `c` belongs to the alphabet.
    pub open spec fn in_sigma(&self, c: char) -> bool {
        self.sigma_views().contains(seq![c])
    }

    /// The padded symbol sequence: padding, filtered text, padding.
    pub open spec fn padded_views(&self) -> Seq<Seq<char>> {
        self.pad_views() + self.raw_views() + self.pad_views()
    }

    /// Well-formedness: the alphabet is well-formed, the padding consists of
    /// copies of its marker, and every gathered symbol is a one-character
    /// member of the alphabet.
    pub closed spec fn wf(&self) -> bool {
        &&& self.sigma.wf()
        &&& match self.set_confix {
            Some(c) => self.sigma.set_marker is Some && forall|i: int|
                0 <= i < c@.len() ==> c@[i] == self.sigma.set_marker->0@,
            None => self.sigma.set_marker is None,
        }
        &&& forall|i: int|
            0 <= i < self.raw_views().len() ==> self.sigma_views().contains(
                #[trigger] self.raw_views()[i],
            )
    }

    /// Every part of the padded sequence is a member of the alphabet.
    pub proof fn lemma_padded_in_sigma(&self)
        requires
            self.wf(),
        ensures
            forall|i: int|
                0 <= i < self.padded_views().len() ==> self.sigma_views().contains(
                    #[trigger] self.padded_views()[i],
                ),
            forall|i: int|
                0 <= i < self.padded_views().len() ==> (#[trigger] self.padded_views()[i]).len()
                    == 1,
    {
        assert forall|i: int| 0 <= i < self.padded_views().len()
            implies self.sigma_views().contains(#[trigger] self.padded_views()[i]) by {
            let p = self.pad_views().len() as int;
            let r = self.raw_views().len() as int;
            if i < p {
                assert(self.padded_views()[i] == self.pad_views()[i]);
                assert(self.pad_views()[i] == self.sigma.set_marker->0@);
            } else if i < p + r {
                assert(self.padded_views()[i] == self.raw_views()[i - p]);
            } else {
                assert(self.padded_views()[i] == self.pad_views()[i - p - r]);
                assert(self.pad_views()[i - p - r] == self.sigma.set_marker->0@);
            }
        }
        assert forall|i: int| 0 <= i < self.padded_views().len()
            implies (#[trigger] self.padded_views()[i]).len() == 1 by {
            let v = self.padded_views()[i];
            assert(self.sigma_views().contains(v));
            let k = choose|k: int| 0 <= k < self.sigma_views().len() && self.sigma_views()[k] == v;
        }
    }

    /// A fresh, empty text model over `sigma`, with padding of `ngram_length`
    /// markers when the alphabet sets a marker.
    pub fn new(ngram_length: usize, sigma: &Sigma) -> (r: Result<
        TextModel,
        crate::text_processing::errors::TextError,
    >)
        requires
            sigma.wf(),
        ensures
            r is Ok,
            r->Ok_0.wf(),
            r->Ok_0.raw_views() == Seq::<Seq<char>>::empty(),
            r->Ok_0.sigma_views() == sigma.sym_views(),
            r->Ok_0.pad_views() == match sigma.marker_view() {
                Some(m) => Seq::new(ngram_length as nat, |i: int| m),
                None => Seq::<Seq<char>>::empty(),
            },
    {
        let set_confix: Option<Confix> = match &sigma.set_marker {
            Some(marker_symbol) => Some(Confix::new(marker_symbol, ngram_length)),
            None => None,
        };
        Ok(TextModel { set_confix, sigma: sigma.duplicate(), symbols: Vec::new() })
    }

    /// Append the alphabet-filtered symbols of `text`: each character of
    /// `text` that is a member of the alphabet is kept, the rest are dropped.
    pub fn extend(&mut self, text: &str)
        requires
            old(self).wf(),
        ensures
            final(self).wf(),
            final(self).sigma_views() == old(self).sigma_views(),
            final(self).pad_views() == old(self).pad_views(),
            final(self).raw_views() == old(self).raw_views() + singleton_views(
                filtered_chars(text@, old(self).sigma_views()),
            ),
    {
        let cs = chars_of(text);
        let mut i: usize = 0;
        while i < cs.len()
            invariant
                i <= cs@.len(),
                cs@ == text@,
                self.sigma == old(self).sigma,
                self.set_confix == old(self).set_confix,
                old(self).wf(),
                self.wf(),
                self.raw_views() =~= old(self).raw_views() + singleton_views(
                    filtered_chars(cs@.subrange(0, i as int), old(self).sigma_views()),
                ),
            decreases cs@.len() - i,
        {
            let single = string_of_char(cs[i]);
            let sym = Symbol::from_str(single.as_str());
            let ghost sviews = old(self).sigma_views();
            let ghost prefix = cs@.subrange(0, i as int);
            let ghost prefix1 = cs@.subrange(0, i + 1);
            let ghost pred = |c: char| sviews.contains(seq![c]);
            proof {
                reveal(Seq::filter);
                assert(prefix1.drop_last() =~= prefix);
                assert(prefix1.last() == cs@[i as int]);
            }
            match self.sigma.contains(sym) {
                Some(kept) => {
                    let ghost prev_views = self.raw_views();
                    self.symbols.push(kept);
                    proof {
                        let f0 = prefix.filter(pred);
                        let f1 = prefix1.filter(pred);
                        assert(f1 =~= f0.push(cs@[i as int]));
                        assert forall|k: int|
                            0 <= k < singleton_views(f1).len() implies #[trigger] singleton_views(
                            f1,
                        )[k] == if k < f0.len() {
                            singleton_views(f0)[k]
                        } else {
                            seq![cs@[i as int]]
                        } by {
                            assert(singleton_views(f1)[k] == seq![f1[k]]);
                            if k < f0.len() {
                                assert(singleton_views(f0)[k] == seq![f0[k]]);
                            }
                        }
                        assert(self.raw_views() =~= prev_views.push(kept@));
                        assert(self.raw_views() =~= old(self).raw_views() + singleton_views(f1));
                        assert forall|k: int|
                            0 <= k < self.raw_views().len() implies self.sigma_views().contains(
                            #[trigger] self.raw_views()[k],
                        ) by {
                            if k < prev_views.len() {
                                assert(self.raw_views()[k] == prev_views[k]);
                            } else {
                                assert(self.raw_views()[k] == kept@);
                            }
                        }
                    }
                },
                None => {
                    proof {
                        assert(prefix1.filter(pred) =~= prefix.filter(pred));
                    }
                },
            }
            i = i + 1;
        }
        proof {
            assert(cs@.subrange(0, cs@.len() as int) =~= text@);
        }
    }

    /// The padded symbol sequence.
    pub fn get_symbols(&self) -> (r: Vec<Symbol>)
        ensures
            views_of(r@) == self.padded_views(),
    {
        match &self.set_confix {
            Some(confix) => {
                let r = confix.add_to_symbols(&self.symbols);
                proof {
                    assert(views_of(r@) =~= self.padded_views());
                }
                r
            },
            None => {
                let r = copy_symbol_vec(&self.symbols);
                proof {
                    assert(views_of(r@) =~= self.padded_views());
                }
                r
            },
        }
    }

    /// Iterate the n-grams of the padded text, left to right.
    pub fn ngram_iter(&self, ngram_length: usize) -> (it: NGramIterator)
        requires
            ngram_length >= 1,
        ensures
            it.text_views() == self.padded_views(),
            it.pos() == 0,
            it.width() == ngram_length,
    {
        let symbols: Vec<Symbol> = self.get_symbols();
        let length: usize = symbols.len();
        NGramIterator { idx: 0, ngram_length, text: symbols, text_length: length }
    }

    /// All n-grams of length `ngram_length` of the padded text, in order:
    /// one per window position.
    pub fn string_ngrams(&self, ngram_length: usize) -> (r: Vec<String>)
        requires
            ngram_length >= 1,
        ensures
            r@.len() == window_count(self.padded_views(), ngram_length as int),
            forall|i: int|
                0 <= i < r@.len() ==> (#[trigger] r@[i])@ == window_at(
                    self.padded_views(),
                    i,
                    ngram_length as int,
                ),
    {
        let symbols: Vec<Symbol> = self.get_symbols();
        let mut r: Vec<String> = Vec::new();
        if symbols.len() < ngram_length {
            return r;
        }
        let count: usize = symbols.len() - ngram_length + 1;
        let mut i: usize = 0;
        while i < count
            invariant
                i <= count,
                ngram_length >= 1,
                count == views_of(symbols@).len() - ngram_length + 1,
                views_of(symbols@) == self.padded_views(),
                r@.len() == i,
                forall|k: int|
                    0 <= k < i ==> (#[trigger] r@[k])@ == window_at(
                        self.padded_views(),
                        k,
                        ngram_length as int,
                    ),
            decreases count - i,
        {
            let w = window_string(&symbols, i, ngram_length);
            r.push(w);
            i = i + 1;
        }
        r
    }
}

/// The number of n-gram windows of width `n` over `parts`: zero when the
/// text is shorter than `n`, else one per starting position.
pub open spec fn window_count(parts: Seq<Seq<char>>, n: int) -> int {
    if parts.len() >= n {
        parts.len() - n + 1
    } else {
        0
    }
}

/// The text of the window of `n` symbols starting at `idx`.
fn window_string(text: &Vec<Symbol>, idx: usize, n: usize) -> (r: String)
    requires
        idx + n <= text@.len(),
    ensures
        r@ == window_at(views_of(text@), idx as int, n as int),
{
    let mut acc = String::new();
    let tl = text.len();
    let mut j: usize = 0;
    while j < n
        invariant
            j <= n,
            tl == text@.len(),
            idx + n <= text@.len(),
            acc@ == views_of(text@).subrange(idx as int, idx + j).flatten(),
        decreases n - j,
    {
        acc.append(text[idx + j].as_str());
        j = j + 1;
        proof {
            let vs = views_of(text@);
            let prev = vs.subrange(idx as int, idx + j - 1);
            let cur = vs.subrange(idx as int, idx + j);
            assert(cur =~= prev.push(vs[idx + j - 1]));
            assert(vs[idx + j - 1] == text@[idx + j - 1]@);
            assert(prev.push(vs[idx + j - 1]).flatten() =~= prev.flatten() + vs[idx + j - 1]);
        }
    }
    proof {
        assert(views_of(text@).subrange(idx as int, idx + n).flatten() == window_at(
            views_of(text@),
            idx as int,
            n as int,
        ));
    }
    acc
}

/// Iterator over the consecutive n-grams of a fixed symbol sequence.
pub struct NGramIterator {
    idx: usize,
    ngram_length: usize,
    text: Vec<Symbol>,
    text_length: usize,
}

impl NGramIterator {
    /// The textual forms of the symbols iterated over.
    pub closed spec fn text_views(&self) -> Seq<Seq<char>> {
        views_of(self.text@)
    }

    /// The current window position.
    pub closed spec fn pos(&self) -> int {
        self.idx as int
    }

    /// The window width.
    pub closed spec fn width(&self) -> int {
        self.ngram_length as int
    }

    /// The next n-gram, or `None` once the window has passed the end of the
    /// text.
    pub fn next(&mut self) -> (r: Option<String>)
        ensures
            final(self).text_views() == old(self).text_views(),
            final(self).width() == old(self).width(),
            if old(self).pos() + old(self).width() <= old(self).text_views().len() {
                &&& r is Some
                &&& r->0@ == window_at(old(self).text_views(), old(self).pos(), old(self).width())
                &&& final(self).pos() == old(self).pos() + 1
            } else {
                r is None && final(self).pos() == old(self).pos()
            },
    {
        proof {
            use_type_invariant(&*self);
        }
        if self.text_length < self.ngram_length || self.idx > self.text_length - self.ngram_length
        {
            return None;
        }
        let w = window_string(&self.text, self.idx, self.ngram_length);
        self.idx = self.idx + 1;
        Some(w)
    }

    #[verifier::type_invariant]
    closed spec fn type_inv(&self) -> bool {
        &&& self.text_length == self.text@.len()
        &&& self.idx <= self.text_length
        &&& self.ngram_length >= 1
    }
}

} // verus!

verus! {

impl TextModel {
    /// A well-formed text model's alphabet is a duplicate-free list of
    /// one-character texts.
    pub proof fn lemma_wf_alphabet(&self)
        requires
            self.wf(),
        ensures
            self.sigma_views().no_duplicates(),
            crate::models::all_singletons(self.sigma_views()),
    {
    }
}

} // verus!

verus! {

/// The padded symbol sequence a text model holds after filtering `raw`
/// against the alphabet: `pad_len` markers, the filtered text, and
/// `pad_len` markers again — or just the filtered text when the alphabet
/// sets no marker.
pub open spec fn padded_text_views(sigma: Sigma, pad_len: int, raw: Seq<char>) -> Seq<Seq<char>> {
    let mid = singleton_views(filtered_chars(raw, sigma.sym_views()));
    match sigma.marker_view() {
        Some(m) => Seq::new(pad_len as nat, |i: int| m) + mid + Seq::new(
            pad_len as nat,
            |i: int| m,
        ),
        None => mid,
    }
}

} // verus!
