//! Alphabets: the set of symbols a text is filtered against, together with
//! the generator that enumerates the exhaustive n-gram universe over an
//! alphabet.

use vstd::prelude::*;
use crate::models::symbol::Symbol;
use crate::models::{all_singletons, string_views, views_of};

verus! {

/// The available alphabet presets.
#[derive(Clone, Copy, Debug, PartialEq, Eq, Structural)]
pub enum SigmaType {
    AlphaNum,
    Ascii,
    Test,
}

/// The characters with codes `lo`, `lo + 1`, ..., `lo + n - 1`.
pub open spec fn char_range(lo: u8, n: nat) -> Seq<char> {
    Seq::new(n, |i: int| ((lo + i) as u8) as char)
}

/// The characters of an alphabet preset: digits, capitals and lower-case
/// Latin letters for `AlphaNum`; the 128 ASCII code points for `Ascii`;
/// the three letters a, b, c for `Test`.
pub open spec fn sigma_type_chars(t: SigmaType) -> Seq<char> {
    match t {
        SigmaType::AlphaNum => char_range(48, 10) + char_range(65, 26) + char_range(97, 26),
        SigmaType::Ascii => char_range(0, 128),
        SigmaType::Test => char_range(97, 3),
    }
}

/// The one-character texts of a sequence of characters.
pub open spec fn singleton_views(cs: Seq<char>) -> Seq<Seq<char>> {
    cs.map_values(|c: char| seq![c])
}

/// Symbols for the characters with codes `lo`, ..., `lo + count - 1`.
fn range_symbols(lo: u8, count: u8) -> (r: Vec<Symbol>)
    requires
        lo + count <= 128,
    ensures
        r@.len() == count,
        forall|k: int| 0 <= k < count ==> (#[trigger] r@[k])@ == seq![((lo + k) as u8) as char],
{
    let mut r: Vec<Symbol> = Vec::new();
    let mut i: u8 = 0;
    while i < count
        invariant
            i <= count,
            lo + count <= 128,
            r@.len() == i,
            forall|k: int| 0 <= k < i ==> (#[trigger] r@[k])@ == seq![((lo + k) as u8) as char],
        decreases count - i,
    {
        let s = Symbol::from_u8(lo + i);
        r.push(s);
        i = i + 1;
    }
    r
}

impl SigmaType {
    /// The symbols of the preset, in ascending code order.
    pub fn get_symbols(&self) -> (r: Vec<Symbol>)
        ensures
            views_of(r@) == singleton_views(sigma_type_chars(*self)),
    {
        let r = match self {
            SigmaType::AlphaNum => {
                let mut r = range_symbols(48, 10);
                let mut capitals = range_symbols(65, 26);
                let mut lower = range_symbols(97, 26);
                r.append(&mut capitals);
                r.append(&mut lower);
                r
            },
            SigmaType::Ascii => range_symbols(0, 128),
            SigmaType::Test => range_symbols(97, 3),
        };
        proof {
            let cs = sigma_type_chars(*self);
            assert forall|k: int| 0 <= k < cs.len() implies views_of(r@)[k]
                == singleton_views(cs)[k] by {
                assert(views_of(r@)[k] == r@[k]@);
                assert(singleton_views(cs)[k] == seq![cs[k]]);
            }
            assert(views_of(r@) =~= singleton_views(cs));
        }
        r
    }
}

/// An alphabet: the legal symbols of a configuration, plus an optional
/// boundary-marker symbol that, when present, is itself a member.
#[derive(Debug)]
pub struct Sigma {
    pub set_marker: Option<Symbol>,
    pub sigma_type: SigmaType,
    pub sigma: Vec<Symbol>,
}

impl Sigma {
    /// The textual forms of the alphabet's symbols, in order.
    pub open spec fn sym_views(&self) -> Seq<Seq<char>> {
        views_of(self.sigma@)
    }

    /// Whether the one-character text of `c` is a member of the alphabet.
    pub open spec fn contains_char(&self, c: char) -> bool {
        self.sym_views().contains(seq![c])
    }

    /// The textual form of the marker, if one is set.
    pub open spec fn marker_view(&self) -> Option<Seq<char>> {
        match self.set_marker {
            Some(m) => Some(m@),
            None => None,
        }
    }

    /// Well-formedness: symbols are distinct one-character texts, and the
    /// marker, if present, is one of them.
    pub open spec fn wf(&self) -> bool {
        &&& self.sym_views().no_duplicates()
        &&& all_singletons(self.sym_views())
        &&& match self.set_marker {
            Some(m) => m@.len() == 1 && self.sym_views().contains(m@),
            None => true,
        }
    }

    /// Build the alphabet of a preset, inserting the marker symbol if one is
    /// requested.
    pub fn new(set_marker_byte: Option<u8>, sigma_type: SigmaType) -> (s: Sigma)
        requires
            match set_marker_byte {
                Some(b) => b < 128,
                None => true,
            },
        ensures
            s.wf(),
            s.sigma_type == sigma_type,
            match set_marker_byte {
                Some(b) => s.marker_view() == Some(seq![b as char]),
                None => s.marker_view() is None,
            },
            forall|c: char|
                #[trigger] s.contains_char(c) <==> (sigma_type_chars(sigma_type).contains(c)
                    || (set_marker_byte is Some && c == set_marker_byte->0 as char)),
    {
        let mut sigma: Vec<Symbol> = sigma_type.get_symbols();
        let ghost base = sigma@;
        proof {
            lemma_sigma_type_chars_no_duplicates(sigma_type);
            lemma_singleton_views_membership(sigma_type_chars(sigma_type));
        }
        let ghost pushed_marker: bool = false;
        let set_marker: Option<Symbol> = match set_marker_byte {
            Some(marker_byte) => {
                let marker = Symbol::from_u8(marker_byte);
                if index_of_symbol(&sigma, &marker).is_none() {
                    sigma.push(marker);
                    proof {
                        pushed_marker = true;
                    }
                }
                Some(Symbol::from_u8(marker_byte))
            },
            None => None,
        };
        let s = Sigma { set_marker, sigma, sigma_type };
        proof {
            let cs = sigma_type_chars(sigma_type);
            let base_views = singleton_views(cs);
            assert(views_of(base) == base_views);
            assert forall|k: int| 0 <= k < base.len() implies #[trigger] s.sym_views()[k]
                == base_views[k] by {
                assert(s.sym_views()[k] == s.sigma@[k]@);
                assert(views_of(base)[k] == base[k]@);
            }
            if pushed_marker {
                let b = set_marker_byte->0;
                assert(s.sigma@ == base.push(s.sigma@.last()));
                assert(s.sym_views()[base.len() as int] == seq![b as char]);
            }
            // all members are one-character texts
            assert forall|k: int| 0 <= k < s.sym_views().len()
                implies (#[trigger] s.sym_views()[k]).len() == 1 by {
                if k < base.len() {
                    assert(s.sym_views()[k] == base_views[k]);
                    assert(base_views[k] == seq![cs[k]]);
                } else {
                    assert(s.sym_views()[k] == s.sigma@[k]@);
                }
            }
            // distinctness of the final symbol list
            assert forall|i: int, j: int|
                0 <= i < s.sym_views().len() && 0 <= j < s.sym_views().len() && i != j
                implies s.sym_views()[i] != s.sym_views()[j] by {
                if i < base.len() && j < base.len() {
                    assert(base_views.no_duplicates());
                    assert(s.sym_views()[i] == base_views[i]);
                    assert(s.sym_views()[j] == base_views[j]);
                } else if i < base.len() {
                    assert(!views_of(base).contains(s.sigma@[j]@));
                    assert(views_of(base)[i] == base[i]@);
                    assert(views_of(base).contains(views_of(base)[i]));
                } else {
                    assert(!views_of(base).contains(s.sigma@[i]@));
                    assert(views_of(base)[j] == base[j]@);
                    assert(views_of(base).contains(views_of(base)[j]));
                }
            }
            // marker membership
            match set_marker_byte {
                Some(b) => {
                    if pushed_marker {
                        assert(s.sym_views().contains(seq![b as char]));
                    } else {
                        assert(views_of(base).contains(seq![b as char]));
                        let k = choose|k: int|
                            0 <= k < views_of(base).len() && views_of(base)[k] == seq![b as char];
                        assert(s.sym_views()[k] == seq![b as char]);
                        assert(s.sym_views().contains(seq![b as char]));
                    }
                },
                None => {},
            }
            // membership characterization
            assert forall|c: char| #[trigger]
                s.contains_char(c) implies (cs.contains(c) || (set_marker_byte is Some
                    && c == set_marker_byte->0 as char)) by {
                let i = choose|i: int|
                    0 <= i < s.sym_views().len() && s.sym_views()[i] == seq![c];
                if i < base.len() {
                    assert(s.sym_views()[i] == base_views[i]);
                    assert(base_views[i] == seq![cs[i]]);
                    assert(seq![cs[i]][0] == seq![c][0]);
                    assert(cs.contains(cs[i]));
                } else {
                    let b = set_marker_byte->0;
                    assert(s.sym_views()[i] == seq![b as char]);
                    assert(seq![b as char][0] == seq![c][0]);
                }
            }
            assert forall|c: char|
                (cs.contains(c) || (set_marker_byte is Some
                    && c == set_marker_byte->0 as char)) implies #[trigger] s.contains_char(c) by {
                if cs.contains(c) {
                    assert(base_views.contains(seq![c]));
                    let i = choose|i: int|
                        0 <= i < base_views.len() && base_views[i] == seq![c];
                    assert(s.sym_views()[i] == seq![c]);
                    assert(s.sym_views().contains(seq![c]));
                } else {
                    let b = set_marker_byte->0;
                    assert(s.sym_views().contains(seq![b as char]));
                }
            }
        }
        s
    }

    /// Test a symbol for membership: the symbol comes back when it belongs to
    /// the alphabet, and is dropped otherwise.
    pub fn contains(&self, symbol: Symbol) -> (r: Option<Symbol>)
        ensures
            match r {
                Some(sy) => sy@ == symbol@ && self.sym_views().contains(symbol@),
                None => !self.sym_views().contains(symbol@),
            },
    {
        match index_of_symbol(&self.sigma, &symbol) {
            Some(_) => Some(symbol),
            None => None,
        }
    }

    /// Borrow the symbol list.
    pub fn as_ref(&self) -> (r: &Vec<Symbol>)
        ensures
            views_of(r@) == self.sym_views(),
    {
        &self.sigma
    }

    /// The symbols of the alphabet, as an owned list of distinct members.
    pub fn as_set(&self) -> (r: Vec<Symbol>)
        ensures
            views_of(r@) == self.sym_views(),
    {
        self.copy_symbols()
    }

    /// The symbols of the alphabet, as an owned list.
    pub fn as_vec(&self) -> (r: Vec<Symbol>)
        ensures
            views_of(r@) == self.sym_views(),
    {
        self.copy_symbols()
    }

    /// The textual forms of the alphabet's symbols.
    pub fn as_string_vec(&self) -> (r: Vec<String>)
        ensures
            string_views(r@) == self.sym_views(),
    {
        let mut r: Vec<String> = Vec::new();
        let mut i: usize = 0;
        while i < self.sigma.len()
            invariant
                i <= self.sigma@.len(),
                r@.len() == i,
                forall|k: int| 0 <= k < i ==> (#[trigger] r@[k])@ == self.sigma@[k]@,
            decreases self.sigma@.len() - i,
        {
            let sy = self.sigma[i].as_string();
            r.push(sy);
            i = i + 1;
        }
        proof {
            assert forall|k: int| 0 <= k < r@.len() implies string_views(r@)[k]
                == self.sym_views()[k] by {
                assert(string_views(r@)[k] == r@[k]@);
                assert(self.sym_views()[k] == self.sigma@[k]@);
            }
            assert(string_views(r@) =~= self.sym_views());
        }
        r
    }

    /// A copy of the alphabet.
    pub fn duplicate(&self) -> (s: Sigma)
        ensures
            s.sym_views() == self.sym_views(),
            s.marker_view() == self.marker_view(),
            s.sigma_type == self.sigma_type,
            self.wf() ==> s.wf(),
    {
        let set_marker = match &self.set_marker {
            Some(m) => Some(m.duplicate()),
            None => None,
        };
        Sigma { set_marker, sigma_type: self.sigma_type, sigma: self.copy_symbols() }
    }

    fn copy_symbols(&self) -> (r: Vec<Symbol>)
        ensures
            views_of(r@) == self.sym_views(),
    {
        let mut r: Vec<Symbol> = Vec::new();
        let mut i: usize = 0;
        while i < self.sigma.len()
            invariant
                i <= self.sigma@.len(),
                r@.len() == i,
                forall|k: int| 0 <= k < i ==> (#[trigger] r@[k])@ == self.sigma@[k]@,
            decreases self.sigma@.len() - i,
        {
            let sy = self.sigma[i].duplicate();
            r.push(sy);
            i = i + 1;
        }
        proof {
            assert forall|k: int| 0 <= k < r@.len() implies views_of(r@)[k]
                == self.sym_views()[k] by {
                assert(views_of(r@)[k] == r@[k]@);
                assert(self.sym_views()[k] == self.sigma@[k]@);
            }
            assert(views_of(r@) =~= self.sym_views());
        }
        r
    }
}

/// Position of the first symbol of `v` with the same text as `s`.
pub(crate) fn index_of_symbol(v: &Vec<Symbol>, s: &Symbol) -> (r: Option<usize>)
    ensures
        match r {
            Some(i) => 0 <= i < v@.len() && v@[i as int]@ == s@ && views_of(v@).contains(s@),
            None => !views_of(v@).contains(s@),
        },
{
    let mut i: usize = 0;
    while i < v.len()
        invariant
            i <= v@.len(),
            forall|k: int| 0 <= k < i ==> (#[trigger] v@[k])@ != s@,
        decreases v@.len() - i,
    {
        if v[i].eq(s) {
            proof {
                assert(views_of(v@)[i as int] == v@[i as int]@);
                assert(views_of(v@).contains(s@));
            }
            return Some(i);
        }
        i = i + 1;
    }
    proof {
        if views_of(v@).contains(s@) {
            let k = choose|k: int| 0 <= k < views_of(v@).len() && views_of(v@)[k] == s@;
            assert(v@[k]@ == s@);
            assert(false);
        }
    }
    None
}

/// The characters of an alphabet preset are pairwise distinct.
pub proof fn lemma_sigma_type_chars_no_duplicates(t: SigmaType)
    ensures
        sigma_type_chars(t).no_duplicates(),
{
    let cs = sigma_type_chars(t);
    assert forall|i: int, j: int| 0 <= i < cs.len() && 0 <= j < cs.len() && i != j
        implies cs[i] != cs[j] by {
        lemma_sigma_type_char_code(t, i);
        lemma_sigma_type_char_code(t, j);
        assert(cs[i] as u32 != cs[j] as u32);
    }
}

/// The code of the `i`-th character of a preset: the three presets' codes
/// are strictly increasing along the sequence.
proof fn lemma_sigma_type_char_code(t: SigmaType, i: int)
    requires
        0 <= i < sigma_type_chars(t).len(),
    ensures
        sigma_type_chars(t)[i] as u32 == match t {
            SigmaType::AlphaNum => if i < 10 {
                48 + i
            } else if i < 36 {
                65 + (i - 10)
            } else {
                97 + (i - 36)
            },
            SigmaType::Ascii => i,
            SigmaType::Test => 97 + i,
        },
{
}

/// Membership in the one-character texts of `cs` mirrors membership in `cs`.
pub proof fn lemma_singleton_views_membership(cs: Seq<char>)
    ensures
        forall|c: char| #[trigger]
            singleton_views(cs).contains(seq![c]) <==> cs.contains(c),
        all_singletons(singleton_views(cs)),
        cs.no_duplicates() ==> singleton_views(cs).no_duplicates(),
{
    assert forall|c: char| #[trigger] singleton_views(cs).contains(seq![c]) implies cs.contains(
        c,
    ) by {
        let i = choose|i: int| 0 <= i < singleton_views(cs).len()
            && singleton_views(cs)[i] == seq![c];
        assert(singleton_views(cs)[i] == seq![cs[i]]);
        assert(seq![cs[i]][0] == seq![c][0]);
        assert(cs.contains(cs[i]));
    }
    assert forall|c: char| cs.contains(c) implies #[trigger] singleton_views(cs).contains(
        seq![c],
    ) by {
        let i = choose|i: int| 0 <= i < cs.len() && cs[i] == c;
        assert(singleton_views(cs)[i] == seq![c]);
    }
    assert forall|i: int| 0 <= i < singleton_views(cs).len()
        implies (#[trigger] singleton_views(cs)[i]).len() == 1 by {
        assert(singleton_views(cs)[i] == seq![cs[i]]);
    }
    if cs.no_duplicates() {
        assert forall|i: int, j: int|
            0 <= i < singleton_views(cs).len() && 0 <= j < singleton_views(cs).len() && i != j
            implies singleton_views(cs)[i] != singleton_views(cs)[j] by {
            assert(singleton_views(cs)[i] == seq![cs[i]]);
            assert(singleton_views(cs)[j] == seq![cs[j]]);
            assert(seq![cs[i]][0] == cs[i] && seq![cs[j]][0] == cs[j]);
        }
    }
}

} // verus!

verus! {

/// The exhaustive n-gram universe over an alphabet.
pub trait NGramExt {
    /// The alphabet's symbols, as one-character texts.
    spec fn unigram_views(&self) -> Seq<Seq<char>>;

    /// All n-grams of length `ngram_length` over the alphabet.
    fn ngrams(&self, ngram_length: usize) -> (r: Vec<String>)
        requires
            ngram_length >= 1,
        ensures
            crate::models::string_views(r@) == crate::models::ngram_model::universe(
                self.unigram_views(),
                ngram_length as nat,
            ),
    ;
}

impl NGramExt for Sigma {
    open spec fn unigram_views(&self) -> Seq<Seq<char>> {
        self.sym_views()
    }

    fn ngrams(&self, ngram_length: usize) -> (r: Vec<String>) {
        self.universe_ngrams(ngram_length)
    }
}

impl Sigma {
    /// All n-grams of length `ngram_length` over the alphabet, by repeated
    /// Cartesian extension of the alphabet's symbols.
    pub fn universe_ngrams(&self, ngram_length: usize) -> (r: Vec<String>)
        requires
            ngram_length >= 1,
        ensures
            crate::models::string_views(r@) == crate::models::ngram_model::universe(
                self.sym_views(),
                ngram_length as nat,
            ),
    {
        let generator = crate::models::ngram_model::NGramGenerator {
            unigrams: self.as_string_vec(),
        };
        generator.generate(ngram_length)
    }
}

} // verus!
