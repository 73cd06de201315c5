//! The model layer: symbols, alphabets, texts, n-gram universes, counts and
//! probabilities, together with the specification functions they share.

pub mod count_model;
pub mod errors;
pub mod ngram_model;
pub mod probability_model;
pub mod sigma;
pub mod symbol;
pub mod text_model;

use vstd::prelude::*;
use crate::models::symbol::Symbol;

verus! {

/// Byte width of a symbol, deduced from its first byte's high nibble.
pub fn char_width(byte: u8) -> (w: usize)
    ensures
        w == crate::models::symbol::spec_char_width(byte),
{
    crate::models::symbol::char_width(byte)
}

/// The textual forms of a sequence of symbols.
pub open spec fn views_of(symbols: Seq<Symbol>) -> Seq<Seq<char>> {
    symbols.map_values(|s: Symbol| s@)
}

/// The character sequences of a sequence of strings.
pub open spec fn string_views(strings: Seq<String>) -> Seq<Seq<char>> {
    strings.map_values(|s: String| s@)
}

/// All parts are one character long.
pub open spec fn all_singletons(parts: Seq<Seq<char>>) -> bool {
    forall|i: int| 0 <= i < parts.len() ==> (#[trigger] parts[i]).len() == 1
}

/// The n-gram starting at position `i` in a sequence of symbol texts:
/// the concatenation of `n` consecutive parts.
pub open spec fn window_at(parts: Seq<Seq<char>>, i: int, n: int) -> Seq<char>
    recommends
        0 <= i,
        0 <= n,
        i + n <= parts.len(),
{
    parts.subrange(i, i + n).flatten()
}

/// How often `key` occurs as an `n`-window among the first `upto` window
/// positions of `parts`.
pub open spec fn occurrences_upto(parts: Seq<Seq<char>>, key: Seq<char>, n: int, upto: int) -> int
    decreases upto,
{
    if upto <= 0 {
        0
    } else {
        occurrences_upto(parts, key, n, upto - 1)
            + if window_at(parts, upto - 1, n) == key { 1int } else { 0int }
    }
}

/// How often `key` occurs as an n-gram of length `n` in `parts`: the number
/// of window positions whose window equals `key`.
pub open spec fn occurrences(parts: Seq<Seq<char>>, key: Seq<char>, n: int) -> int {
    occurrences_upto(parts, key, n, parts.len() - n + 1)
}

/// An exact non-negative fraction: `num / den`. Counts and probabilities are
/// held in this form so that the arithmetic of smoothing and of the
/// probability chain rule stays exact. A fraction with `den == 0` carries no
/// value (it arises only from dividing by an empty count).
#[derive(Clone, Copy, Debug, PartialEq, Eq, Structural)]
pub struct Ratio {
    pub num: u128,
    pub den: u128,
}

/// The sum of a sequence of counts.
pub open spec fn sum_nums(s: Seq<u128>) -> int
    decreases s.len(),
{
    if s.len() == 0 {
        0
    } else {
        sum_nums(s.drop_last()) + s.last()
    }
}

/// Each element of a sequence of counts is at most the sum of all of them.
pub proof fn lemma_sum_nums_bounds(s: Seq<u128>, i: int)
    requires
        0 <= i < s.len(),
    ensures
        s[i] <= sum_nums(s),
        sum_nums(s) >= 0,
    decreases s.len(),
{
    lemma_sum_nums_nonneg(s.drop_last());
    if i < s.len() - 1 {
        lemma_sum_nums_bounds(s.drop_last(), i);
    }
}

/// A sum of counts is non-negative.
pub proof fn lemma_sum_nums_nonneg(s: Seq<u128>)
    ensures
        sum_nums(s) >= 0,
    decreases s.len(),
{
    if s.len() > 0 {
        lemma_sum_nums_nonneg(s.drop_last());
    }
}

/// Replacing one count changes the sum by the difference.
pub proof fn lemma_sum_nums_update(s: Seq<u128>, i: int, v: u128)
    requires
        0 <= i < s.len(),
    ensures
        sum_nums(s.update(i, v)) == sum_nums(s) - s[i] + v,
    decreases s.len(),
{
    let t = s.update(i, v);
    if i == s.len() - 1 {
        assert(t.drop_last() =~= s.drop_last());
        assert(t.last() == v);
    } else {
        assert(t.drop_last() =~= s.drop_last().update(i, v));
        assert(t.last() == s.last());
        lemma_sum_nums_update(s.drop_last(), i, v);
    }
}

/// How often `key` occurs in a list of n-grams.
pub open spec fn count_matches(ws: Seq<Seq<char>>, key: Seq<char>) -> int
    decreases ws.len(),
{
    if ws.len() == 0 {
        0
    } else {
        count_matches(ws.drop_last(), key) + if ws.last() == key {
            1int
        } else {
            0int
        }
    }
}

/// Counting matches over a list of all the n-windows of a text counts the
/// occurrences of the key in the text.
pub proof fn lemma_count_matches_is_occurrences(
    ws: Seq<Seq<char>>,
    parts: Seq<Seq<char>>,
    key: Seq<char>,
    n: int,
    m: int,
)
    requires
        0 <= m == ws.len(),
        forall|i: int| 0 <= i < m ==> ws[i] == window_at(parts, i, n),
    ensures
        count_matches(ws, key) == occurrences_upto(parts, key, n, m),
    decreases m,
{
    if m > 0 {
        lemma_count_matches_is_occurrences(ws.drop_last(), parts, key, n, m - 1);
    }
}

} // verus!

verus! {

/// Flattening one-character parts gives one character per part.
pub proof fn lemma_flatten_singletons(parts: Seq<Seq<char>>)
    requires
        all_singletons(parts),
    ensures
        parts.flatten().len() == parts.len(),
        forall|i: int| 0 <= i < parts.len() ==> parts.flatten()[i] == (#[trigger] parts[i])[0],
    decreases parts.len(),
{
    if parts.len() == 0 {
    } else {
        let rest = parts.drop_first();
        assert(all_singletons(rest)) by {
            assert forall|i: int| 0 <= i < rest.len() implies (#[trigger] rest[i]).len() == 1 by {
                assert(rest[i] == parts[i + 1]);
            }
        }
        lemma_flatten_singletons(rest);
        assert(parts.flatten() == parts.first() + rest.flatten());
        assert forall|i: int| 0 <= i < parts.len() implies parts.flatten()[i] == (
        #[trigger] parts[i])[0] by {
            if i == 0 {
                assert(parts.flatten()[0] == parts.first()[0]);
            } else {
                assert(parts.flatten()[i] == rest.flatten()[i - 1]);
                assert(rest[i - 1] == parts[i]);
            }
        }
    }
}

/// An n-gram window over one-character alphabet members has length `n` and
/// stays over the alphabet.
pub proof fn lemma_window_over_alphabet(
    parts: Seq<Seq<char>>,
    sigma_views: Seq<Seq<char>>,
    i: int,
    n: int,
)
    requires
        0 <= i,
        1 <= n,
        i + n <= parts.len(),
        forall|k: int| 0 <= k < parts.len() ==> sigma_views.contains(#[trigger] parts[k]),
        all_singletons(parts),
    ensures
        window_at(parts, i, n).len() == n,
        forall|m: int|
            0 <= m < n ==> sigma_views.contains(seq![#[trigger] window_at(parts, i, n)[m]]),
{
    let w = parts.subrange(i, i + n);
    assert(all_singletons(w)) by {
        assert forall|k: int| 0 <= k < w.len() implies (#[trigger] w[k]).len() == 1 by {
            assert(w[k] == parts[i + k]);
        }
    }
    lemma_flatten_singletons(w);
    assert forall|m: int| 0 <= m < n implies sigma_views.contains(
        seq![#[trigger] window_at(parts, i, n)[m]],
    ) by {
        assert(w.flatten()[m] == w[m][0]);
        assert(w[m] == parts[i + m]);
        assert(sigma_views.contains(parts[i + m]));
        assert(seq![parts[i + m][0]] =~= parts[i + m]);
    }
}

} // verus!

verus! {

/// The consecutive character windows of width `n` of a list of characters,
/// as strings.
pub fn char_windows(cs: &Vec<char>, n: usize) -> (r: Vec<String>)
    requires
        n >= 1,
    ensures
        r@.len() == if cs@.len() >= n {
            cs@.len() - n + 1
        } else {
            0
        },
        forall|i: int| 0 <= i < r@.len() ==> (#[trigger] r@[i])@ == cs@.subrange(i, i + n),
{
    let mut r: Vec<String> = Vec::new();
    let l = cs.len();
    if l < n {
        return r;
    }
    let count = l - n + 1;
    let mut i: usize = 0;
    while i < count
        invariant
            i <= count,
            n >= 1,
            l == cs@.len(),
            count == cs@.len() - n + 1,
            r@.len() == i,
            forall|k: int| 0 <= k < i ==> (#[trigger] r@[k])@ == cs@.subrange(k, k + n),
        decreases count - i,
    {
        let w = crate::strutil::chars_to_string(cs, i, i + n);
        r.push(w);
        i = i + 1;
    }
    r
}

/// N-grams in textual form.
pub trait NGramExt {
    /// The n-grams the value yields for width `n`: the exhaustive universe
    /// for an alphabet, the sliding windows for a text.
    spec fn spec_string_ngrams(&self, n: int) -> Seq<Seq<char>>;

    /// All n-grams of width `ngram_length`.
    fn string_ngrams(&self, ngram_length: usize) -> (r: Vec<String>)
        requires
            ngram_length >= 1,
        ensures
            string_views(r@) == self.spec_string_ngrams(ngram_length as int),
    ;
}

impl NGramExt for crate::models::sigma::Sigma {
    open spec fn spec_string_ngrams(&self, n: int) -> Seq<Seq<char>> {
        crate::models::ngram_model::universe(self.sym_views(), n as nat)
    }

    fn string_ngrams(&self, ngram_length: usize) -> (r: Vec<String>) {
        self.universe_ngrams(ngram_length)
    }
}

impl NGramExt for String {
    open spec fn spec_string_ngrams(&self, n: int) -> Seq<Seq<char>> {
        if self@.len() >= n {
            Seq::new((self@.len() - n + 1) as nat, |i: int| self@.subrange(i, i + n))
        } else {
            Seq::empty()
        }
    }

    fn string_ngrams(&self, ngram_length: usize) -> (r: Vec<String>) {
        let cs = crate::strutil::chars_of(self.as_str());
        let r = char_windows(&cs, ngram_length);
        proof {
            assert forall|i: int| 0 <= i < r@.len() implies string_views(r@)[i]
                == self.spec_string_ngrams(ngram_length as int)[i] by {
                assert(string_views(r@)[i] == r@[i]@);
            }
            assert(string_views(r@) =~= self.spec_string_ngrams(ngram_length as int));
        }
        r
    }
}

} // verus!

verus! {

/// An n-window splits into its (n-1)-window and its last symbol.
pub proof fn lemma_window_split(parts: Seq<Seq<char>>, i: int, n: int)
    requires
        0 <= i,
        2 <= n,
        i + n <= parts.len(),
    ensures
        window_at(parts, i, n) == window_at(parts, i, n - 1) + parts[i + n - 1],
{
    broadcast use vstd::prelude::Seq::lemma_flatten_push;

    assert(parts.subrange(i, i + n) =~= parts.subrange(i, i + n - 1).push(parts[i + n - 1]));
    assert(parts.subrange(i, i + n - 1).push(parts[i + n - 1]).flatten() =~= parts.subrange(
        i,
        i + n - 1,
    ).flatten() + parts[i + n - 1]);
}

/// How many alphabet members extend `w` into exactly `x`.
pub open spec fn count_hits(sv: Seq<Seq<char>>, w: Seq<char>, x: Seq<char>) -> int
    decreases sv.len(),
{
    if sv.len() == 0 {
        0
    } else {
        count_hits(sv.drop_last(), w, x) + if w + sv.last() == x {
            1int
        } else {
            0int
        }
    }
}

/// Over a duplicate-free alphabet, an extension of `w` is hit exactly once,
/// and anything that is no extension of `w` is never hit.
pub proof fn lemma_count_hits(sv: Seq<Seq<char>>, w: Seq<char>, x: Seq<char>)
    requires
        sv.no_duplicates(),
    ensures
        (exists|k: int| 0 <= k < sv.len() && x == w + #[trigger] sv[k]) ==> count_hits(sv, w, x)
            == 1,
        !(exists|k: int| 0 <= k < sv.len() && x == w + #[trigger] sv[k]) ==> count_hits(sv, w, x)
            == 0,
    decreases sv.len(),
{
    if sv.len() == 0 {
    } else {
        let pre = sv.drop_last();
        assert(pre.no_duplicates());
        lemma_count_hits(pre, w, x);
        if x == w + sv.last() {
            // the last member hits; no earlier member can, since two hits
            // would be the same member twice
            assert(!(exists|k: int| 0 <= k < pre.len() && x == w + #[trigger] pre[k])) by {
                if exists|k: int| 0 <= k < pre.len() && x == w + #[trigger] pre[k] {
                    let k = choose|k: int| 0 <= k < pre.len() && x == w + #[trigger] pre[k];
                    assert(w + pre[k] == w + sv.last());
                    assert(pre[k] =~= sv.last()) by {
                        assert forall|t: int| 0 <= t < pre[k].len() implies pre[k][t]
                            == sv.last()[t] by {
                            assert((w + pre[k])[w.len() + t] == pre[k][t]);
                            assert((w + sv.last())[w.len() + t] == sv.last()[t]);
                        }
                        assert(pre[k].len() == sv.last().len());
                    }
                    assert(sv[k] == sv[sv.len() - 1]);
                    assert(false);
                }
            }
            assert(exists|k: int| 0 <= k < sv.len() && x == w + #[trigger] sv[k]) by {
                assert(x == w + sv[sv.len() - 1]);
            }
        } else {
            if exists|k: int| 0 <= k < sv.len() && x == w + #[trigger] sv[k] {
                let k = choose|k: int| 0 <= k < sv.len() && x == w + #[trigger] sv[k];
                assert(k < pre.len());
                assert(x == w + pre[k]);
            } else {
                if exists|k: int| 0 <= k < pre.len() && x == w + #[trigger] pre[k] {
                    let k = choose|k: int| 0 <= k < pre.len() && x == w + #[trigger] pre[k];
                    assert(x == w + sv[k]);
                }
            }
        }
    }
}

/// The occurrences of all one-symbol extensions of `w`, summed over the
/// alphabet, among the first `m` window positions.
pub open spec fn ext_occ_sum(
    sv: Seq<Seq<char>>,
    parts: Seq<Seq<char>>,
    w: Seq<char>,
    n: int,
    m: int,
) -> int
    decreases sv.len(),
{
    if sv.len() == 0 {
        0
    } else {
        ext_occ_sum(sv.drop_last(), parts, w, n, m) + occurrences_upto(
            parts,
            w + sv.last(),
            n,
            m,
        )
    }
}

/// One more window position adds the number of members that extend `w`
/// into that window.
proof fn lemma_ext_occ_sum_step(
    sv: Seq<Seq<char>>,
    parts: Seq<Seq<char>>,
    w: Seq<char>,
    n: int,
    m: int,
)
    requires
        m >= 1,
    ensures
        ext_occ_sum(sv, parts, w, n, m) == ext_occ_sum(sv, parts, w, n, m - 1) + count_hits(
            sv,
            w,
            window_at(parts, m - 1, n),
        ),
    decreases sv.len(),
{
    if sv.len() > 0 {
        lemma_ext_occ_sum_step(sv.drop_last(), parts, w, n, m);
    }
}

/// Every occurrence of `w` at an extendable position extends into exactly
/// one n-gram over the alphabet: summed over a duplicate-free alphabet that
/// contains every symbol of the text, the extensions' occurrences among the
/// first `m` n-window positions equal the occurrences of `w` there.
pub proof fn lemma_extension_occurrences(
    sv: Seq<Seq<char>>,
    parts: Seq<Seq<char>>,
    w: Seq<char>,
    n: int,
    m: int,
)
    requires
        2 <= n,
        0 <= m,
        m + n <= parts.len() + 1,
        w.len() == n - 1,
        sv.no_duplicates(),
        all_singletons(parts),
        forall|i: int| 0 <= i < parts.len() ==> sv.contains(#[trigger] parts[i]),
    ensures
        ext_occ_sum(sv, parts, w, n, m) == occurrences_upto(parts, w, n - 1, m),
    decreases m,
{
    if m == 0 {
        lemma_ext_occ_sum_zero(sv, parts, w, n);
    } else {
        lemma_extension_occurrences(sv, parts, w, n, m - 1);
        lemma_ext_occ_sum_step(sv, parts, w, n, m);
        let x = window_at(parts, m - 1, n);
        let prefix = window_at(parts, m - 1, n - 1);
        let last = parts[m + n - 2];
        lemma_window_split(parts, m - 1, n);
        assert(x == prefix + last);
        lemma_flatten_singletons(parts.subrange(m - 1, m - 1 + n - 1));
        assert(prefix.len() == n - 1);
        lemma_count_hits(sv, w, x);
        if prefix == w {
            assert(exists|k: int| 0 <= k < sv.len() && x == w + #[trigger] sv[k]) by {
                assert(sv.contains(last));
                let k = choose|k: int| 0 <= k < sv.len() && sv[k] == last;
                assert(x == w + sv[k]);
            }
            assert(count_hits(sv, w, x) == 1);
        } else {
            assert(!(exists|k: int| 0 <= k < sv.len() && x == w + #[trigger] sv[k])) by {
                if exists|k: int| 0 <= k < sv.len() && x == w + #[trigger] sv[k] {
                    let k = choose|k: int| 0 <= k < sv.len() && x == w + #[trigger] sv[k];
                    assert(prefix =~= w) by {
                        assert forall|t: int| 0 <= t < n - 1 implies prefix[t] == w[t] by {
                            assert((prefix + last)[t] == prefix[t]);
                            assert((w + sv[k])[t] == w[t]);
                        }
                    }
                    assert(false);
                }
            }
            assert(count_hits(sv, w, x) == 0);
        }
    }
}

/// With no window positions there is nothing to count.
proof fn lemma_ext_occ_sum_zero(sv: Seq<Seq<char>>, parts: Seq<Seq<char>>, w: Seq<char>, n: int)
    ensures
        ext_occ_sum(sv, parts, w, n, 0) == 0,
    decreases sv.len(),
{
    if sv.len() > 0 {
        lemma_ext_occ_sum_zero(sv.drop_last(), parts, w, n);
    }
}

/// Probability normalization: in an unsmoothed count model trained on a
/// padded text, the conditional probabilities of all one-symbol extensions
/// of a prefix `w` share the denominator count(`w`), and their numerators —
/// the extensions' counts — sum to exactly that denominator, so the
/// probabilities sum to one. The sole excluded prefix is the padded text's
/// final (n-1)-window: its last occurrence has no successor symbol.
pub proof fn lemma_probability_normalization(
    sv: Seq<Seq<char>>,
    parts: Seq<Seq<char>>,
    w: Seq<char>,
    n: int,
)
    requires
        2 <= n <= parts.len(),
        w.len() == n - 1,
        sv.no_duplicates(),
        all_singletons(parts),
        forall|i: int| 0 <= i < parts.len() ==> sv.contains(#[trigger] parts[i]),
        w != window_at(parts, parts.len() - (n - 1), n - 1),
    ensures
        ext_occ_sum(sv, parts, w, n, parts.len() - n + 1) == occurrences(parts, w, n - 1),
{
    let m = parts.len() - n + 1;
    lemma_extension_occurrences(sv, parts, w, n, m);
    assert(occurrences(parts, w, n - 1) == occurrences_upto(parts, w, n - 1, m + 1));
    assert(occurrences_upto(parts, w, n - 1, m + 1) == occurrences_upto(parts, w, n - 1, m) + if
        window_at(parts, m, n - 1) == w {
        1int
    } else {
        0int
    });
}

} // verus!

verus! {

/// The byte offset at which character `i` of a text starts: the encoded
/// length of the preceding characters.
pub open spec fn byte_offset(s: Seq<char>, i: int) -> int {
    vstd::utf8::encode_utf8(s.subrange(0, i)).len() as int
}

/// The number of bytes of a character's encoded form.
pub fn utf8_width(c: char) -> (w: usize)
    ensures
        w == vstd::utf8::encode_scalar(c as u32).len(),
{
    let v = c as u32;
    if v < 0x80 {
        1
    } else if v < 0x800 {
        2
    } else if v < 0x10000 {
        3
    } else {
        4
    }
}

/// Encoding a text and one more character encodes the text and then the
/// character.
pub proof fn lemma_encode_utf8_push(s: Seq<char>, c: char)
    ensures
        vstd::utf8::encode_utf8(s.push(c)) == vstd::utf8::encode_utf8(s)
            + vstd::utf8::encode_scalar(c as u32),
    decreases s.len(),
{
    if s.len() == 0 {
        assert(s.push(c).drop_first() =~= s);
        assert(s.push(c)[0] == c);
        assert(vstd::utf8::encode_utf8(s) =~= Seq::<u8>::empty());
        assert(vstd::utf8::encode_utf8(s.push(c)) =~= vstd::utf8::encode_scalar(c as u32)
            + vstd::utf8::encode_utf8(s));
        assert(vstd::utf8::encode_scalar(c as u32) + Seq::<u8>::empty()
            =~= vstd::utf8::encode_scalar(c as u32));
        assert(Seq::<u8>::empty() + vstd::utf8::encode_scalar(c as u32)
            =~= vstd::utf8::encode_scalar(c as u32));
    } else {
        assert(s.push(c).drop_first() =~= s.drop_first().push(c));
        assert(s.push(c)[0] == s[0]);
        lemma_encode_utf8_push(s.drop_first(), c);
        assert(vstd::utf8::encode_scalar(s[0] as u32) + (vstd::utf8::encode_utf8(s.drop_first())
            + vstd::utf8::encode_scalar(c as u32)) =~= (vstd::utf8::encode_scalar(s[0] as u32)
            + vstd::utf8::encode_utf8(s.drop_first())) + vstd::utf8::encode_scalar(c as u32));
    }
}

/// A prefix of a text encodes to no more bytes than the text.
pub proof fn lemma_encode_utf8_prefix(s: Seq<char>, i: int)
    requires
        0 <= i <= s.len(),
    ensures
        vstd::utf8::encode_utf8(s.subrange(0, i)).len() <= vstd::utf8::encode_utf8(s).len(),
    decreases s.len() - i,
{
    if i == s.len() {
        assert(s.subrange(0, i) =~= s);
    } else {
        lemma_encode_utf8_prefix(s, i + 1);
        lemma_encode_utf8_push(s.subrange(0, i), s[i]);
        assert(s.subrange(0, i).push(s[i]) =~= s.subrange(0, i + 1));
    }
}

/// The byte offsets at which a text's characters start, followed by the
/// text's total byte length.
pub fn byte_offsets(text: &str) -> (r: Vec<usize>)
    ensures
        r@.len() == text@.len() + 1,
        forall|i: int| 0 <= i <= text@.len() ==> r@[i] == byte_offset(text@, i),
{
    let cs = crate::strutil::chars_of(text);
    let total_bytes = text.as_bytes().len();
    proof {
        assert(text@.subrange(0, text@.len() as int) =~= text@);
    }
    let mut r: Vec<usize> = Vec::new();
    let mut acc: usize = 0;
    let mut i: usize = 0;
    while i < cs.len()
        invariant
            i <= cs@.len(),
            cs@ == text@,
            r@.len() == i,
            acc == byte_offset(text@, i as int),
            total_bytes == vstd::utf8::encode_utf8(text@).len(),
            forall|k: int| 0 <= k < i ==> r@[k] == byte_offset(text@, k),
        decreases cs@.len() - i,
    {
        r.push(acc);
        let w = utf8_width(cs[i]);
        proof {
            lemma_encode_utf8_push(text@.subrange(0, i as int), text@[i as int]);
            assert(text@.subrange(0, i as int).push(text@[i as int]) =~= text@.subrange(
                0,
                i + 1,
            ));
            lemma_encode_utf8_prefix(text@, i + 1);
        }
        acc = acc + w;
        i = i + 1;
    }
    r.push(acc);
    r
}

/// Iterator over the byte offsets at which a text's symbols start.
pub struct SymbolOffsets {
    pub offsets: Vec<usize>,
    pub idx: usize,
}

impl SymbolOffsets {
    /// The next symbol's byte offset.
    pub fn next(&mut self) -> (r: Option<usize>)
        ensures
            final(self).offsets == old(self).offsets,
            if old(self).idx + 1 < old(self).offsets@.len() {
                r == Some(old(self).offsets@[old(self).idx as int]) && final(self).idx == old(
                    self,
                ).idx + 1
            } else {
                r is None && final(self).idx == old(self).idx
            },
    {
        if self.idx < self.offsets.len() && self.idx + 1 < self.offsets.len() {
            let v = self.offsets[self.idx];
            self.idx = self.idx + 1;
            Some(v)
        } else {
            None
        }
    }
}

/// The byte offsets at which the symbols of `text` start, in order.
pub fn symbol_offsets(text: &str) -> (r: SymbolOffsets)
    ensures
        r.idx == 0,
        r.offsets@.len() == text@.len() + 1,
        forall|i: int| 0 <= i <= text@.len() ==> r.offsets@[i] == byte_offset(text@, i),
{
    SymbolOffsets { offsets: byte_offsets(text), idx: 0 }
}

/// Iterator over the symbols of a text, as borrowed slices.
pub struct SymbolSlices<'a> {
    text: &'a str,
    offsets: Vec<usize>,
    idx: usize,
    count: usize,
}

impl<'a> SymbolSlices<'a> {
    /// The characters of the text iterated over.
    pub closed spec fn text_view(&self) -> Seq<char> {
        self.text@
    }

    /// The current symbol position.
    pub closed spec fn pos(&self) -> int {
        self.idx as int
    }

    /// The byte span of the next symbol.
    pub fn next_symbol(&mut self) -> (r: Option<(usize, usize)>)
        ensures
            final(self).text_view() == old(self).text_view(),
            if old(self).pos() < old(self).text_view().len() {
                &&& r is Some
                &&& (r->0).0 == byte_offset(old(self).text_view(), old(self).pos())
                &&& (r->0).1 == byte_offset(old(self).text_view(), old(self).pos() + 1)
                &&& final(self).pos() == old(self).pos() + 1
            } else {
                r is None && final(self).pos() == old(self).pos()
            },
    {
        proof {
            use_type_invariant(&*self);
        }
        if self.idx >= self.count {
            return None;
        }
        let start = self.offsets[self.idx];
        let end = self.offsets[self.idx + 1];
        self.idx = self.idx + 1;
        Some((start, end))
    }

    /// The next symbol, as a slice of the text.
    pub fn next(&mut self) -> (r: Option<&'a str>)
        ensures
            final(self).text_view() == old(self).text_view(),
            if old(self).pos() < old(self).text_view().len() {
                &&& r is Some
                &&& r->0@ == seq![old(self).text_view()[old(self).pos()]]
                &&& final(self).pos() == old(self).pos() + 1
            } else {
                r is None && final(self).pos() == old(self).pos()
            },
    {
        proof {
            use_type_invariant(&*self);
        }
        if self.idx >= self.count {
            return None;
        }
        let s = vstd::string::StrSliceExecFns::substring_char(self.text, self.idx, self.idx + 1);
        self.idx = self.idx + 1;
        proof {
            assert(s@ =~= seq![old(self).text_view()[old(self).pos()]]);
        }
        Some(s)
    }

    #[verifier::type_invariant]
    closed spec fn type_inv(&self) -> bool {
        &&& self.count == self.text@.len()
        &&& self.idx <= self.count
        &&& self.offsets@.len() == self.text@.len() + 1
        &&& forall|i: int|
            0 <= i <= self.text@.len() ==> self.offsets@[i] == byte_offset(self.text@, i)
    }
}

/// Access to a text's symbols as borrowed slices.
pub trait SymbolExt {
    /// The characters of the text.
    spec fn text_chars(&self) -> Seq<char>;

    /// Iterate the symbols of the text, from the first.
    fn get_symbols<'a>(&'a self) -> (it: SymbolSlices<'a>)
        ensures
            it.text_view() == self.text_chars(),
            it.pos() == 0,
    ;
}

impl SymbolExt for str {
    open spec fn text_chars(&self) -> Seq<char> {
        self@
    }

    fn get_symbols<'a>(&'a self) -> (it: SymbolSlices<'a>)
    {
        let offsets = byte_offsets(self);
        let count = vstd::string::StrSliceExecFns::unicode_len(self);
        SymbolSlices { text: self, offsets, idx: 0, count }
    }
}

} // verus!
