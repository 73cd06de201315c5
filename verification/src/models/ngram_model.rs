//! The n-gram universe generator and the per-length count model.
//!
//! The generator enumerates the exhaustive universe of n-grams over an
//! alphabet by repeated Cartesian extension; the count model maps every
//! n-gram of that universe to an occurrence count.

use vstd::prelude::*;
use vstd::arithmetic::power::pow;
use crate::models::{count_matches, lemma_sum_nums_bounds, lemma_sum_nums_update, string_views, sum_nums};

verus! {

/// Each element of `xs` with `x` put in front of it.
pub open spec fn row(x: Seq<char>, ys: Seq<Seq<char>>) -> Seq<Seq<char>> {
    ys.map_values(|y: Seq<char>| x + y)
}

/// The Cartesian extension: every element of `xs` concatenated with every
/// element of `ys`, grouped by the element of `xs`.
pub open spec fn product(xs: Seq<Seq<char>>, ys: Seq<Seq<char>>) -> Seq<Seq<char>>
    decreases xs.len(),
{
    if xs.len() == 0 {
        Seq::empty()
    } else {
        product(xs.drop_last(), ys) + row(xs.last(), ys)
    }
}

/// `k` repeated Cartesian extensions of `xs` by `ys`.
pub open spec fn extend_all(xs: Seq<Seq<char>>, ys: Seq<Seq<char>>, k: nat) -> Seq<Seq<char>>
    decreases k,
{
    if k == 0 {
        xs
    } else {
        extend_all(product(xs, ys), ys, (k - 1) as nat)
    }
}

/// The exhaustive universe of n-grams of length `n` over the unigrams `ys`:
/// `n - 1` Cartesian extensions of the unigrams by themselves.
pub open spec fn universe(ys: Seq<Seq<char>>, n: nat) -> Seq<Seq<char>>
    recommends
        n >= 1,
{
    extend_all(ys, ys, (n - 1) as nat)
}

/// Every character of `t` is, as a one-character text, an element of `ys`.
pub open spec fn over_alphabet(t: Seq<char>, ys: Seq<Seq<char>>) -> bool {
    forall|k: int| 0 <= k < t.len() ==> ys.contains(seq![#[trigger] t[k]])
}

/// Generator of the exhaustive n-gram universe over a unigram list.
pub struct NGramGenerator {
    pub unigrams: Vec<String>,
}

impl NGramGenerator {
    /// All n-grams of length `ngram_length` over the unigrams, built by
    /// `ngram_length - 1` Cartesian extensions.
    pub fn generate(&self, ngram_length: usize) -> (r: Vec<String>)
        requires
            ngram_length >= 1,
        ensures
            string_views(r@) == universe(string_views(self.unigrams@), ngram_length as nat),
    {
        let base = clone_string_vec(&self.unigrams);
        self.recursion(base, ngram_length - 1)
    }

    /// `index` remaining Cartesian extensions of `ngrams` by the unigrams.
    pub fn recursion(&self, ngrams: Vec<String>, index: usize) -> (r: Vec<String>)
        ensures
            string_views(r@) == extend_all(
                string_views(ngrams@),
                string_views(self.unigrams@),
                index as nat,
            ),
        decreases index,
    {
        if index == 0 {
            ngrams
        } else {
            let ghost xs = string_views(ngrams@);
            let ghost ys = string_views(self.unigrams@);
            let mut ext: Vec<String> = Vec::new();
            let mut i: usize = 0;
            while i < ngrams.len()
                invariant
                    i <= ngrams@.len(),
                    xs == string_views(ngrams@),
                    ys == string_views(self.unigrams@),
                    string_views(ext@) =~= product(xs.subrange(0, i as int), ys),
                decreases ngrams@.len() - i,
            {
                let mut j: usize = 0;
                while j < self.unigrams.len()
                    invariant
                        i < ngrams@.len(),
                        j <= self.unigrams@.len(),
                        xs == string_views(ngrams@),
                        ys == string_views(self.unigrams@),
                        string_views(ext@) =~= product(xs.subrange(0, i as int), ys) + row(
                            xs[i as int],
                            ys.subrange(0, j as int),
                        ),
                    decreases self.unigrams@.len() - j,
                {
                    let piece = ngrams[i].clone();
                    let appended = piece.concat(self.unigrams[j].as_str());
                    let ghost prev = ext@;
                    ext.push(appended);
                    j = j + 1;
                    proof {
                        let p = product(xs.subrange(0, i as int), ys);
                        let r0 = row(xs[i as int], ys.subrange(0, j - 1));
                        let r1 = row(xs[i as int], ys.subrange(0, j as int));
                        assert(appended@ == xs[i as int] + ys[j - 1]);
                        assert forall|k: int| 0 <= k < r1.len() implies #[trigger] r1[k] == (
                        if k < r0.len() {
                            r0[k]
                        } else {
                            xs[i as int] + ys[j - 1]
                        }) by {
                            assert(r1[k] == xs[i as int] + ys.subrange(0, j as int)[k]);
                            if k < r0.len() {
                                assert(r0[k] == xs[i as int] + ys.subrange(0, j - 1)[k]);
                            }
                        }
                        assert(r1 =~= r0.push(xs[i as int] + ys[j - 1]));
                        assert(p + r1 =~= (p + r0).push(xs[i as int] + ys[j - 1]));
                        assert forall|k: int| 0 <= k < ext@.len() implies string_views(ext@)[k]
                            == (p + r1)[k] by {
                            assert(string_views(ext@)[k] == ext@[k]@);
                            if k < prev.len() {
                                assert(ext@[k] == prev[k]);
                                assert(string_views(prev)[k] == prev[k]@);
                                assert((p + r0)[k] == (p + r1)[k]);
                            } else {
                                assert(ext@[k] == appended);
                                assert((p + r1)[k] == xs[i as int] + ys[j - 1]);
                            }
                        }
                        assert(string_views(ext@) =~= p + r1);
                    }
                }
                i = i + 1;
                proof {
                    let take_prev = xs.subrange(0, i - 1);
                    let take_cur = xs.subrange(0, i as int);
                    assert(ys.subrange(0, ys.len() as int) =~= ys);
                    assert(take_cur.drop_last() =~= take_prev);
                    assert(take_cur.last() == xs[i - 1]);
                    assert(product(take_cur, ys) == product(take_prev, ys) + row(xs[i - 1], ys));
                }
            }
            proof {
                assert(xs.subrange(0, xs.len() as int) =~= xs);
            }
            self.recursion(ext, index - 1)
        }
    }
}

/// An exact copy of a string list.
pub(crate) fn clone_string_vec(v: &Vec<String>) -> (r: Vec<String>)
    ensures
        string_views(r@) == string_views(v@),
{
    let mut r: Vec<String> = Vec::new();
    let mut i: usize = 0;
    while i < v.len()
        invariant
            i <= v@.len(),
            r@.len() == i,
            forall|k: int| 0 <= k < i ==> (#[trigger] r@[k])@ == v@[k]@,
        decreases v@.len() - i,
    {
        let s = v[i].clone();
        r.push(s);
        i = i + 1;
    }
    proof {
        assert forall|k: int| 0 <= k < r@.len() implies string_views(r@)[k]
            == string_views(v@)[k] by {
            assert(string_views(r@)[k] == r@[k]@);
            assert(string_views(v@)[k] == v@[k]@);
        }
        assert(string_views(r@) =~= string_views(v@));
    }
    r
}

/// The Cartesian extension has one element per pair.
pub proof fn lemma_product_len(xs: Seq<Seq<char>>, ys: Seq<Seq<char>>)
    ensures
        product(xs, ys).len() == xs.len() * ys.len(),
    decreases xs.len(),
{
    if xs.len() == 0 {
    } else {
        lemma_product_len(xs.drop_last(), ys);
        assert((xs.len() - 1) * ys.len() + ys.len() == xs.len() * ys.len()) by (nonlinear_arith);
    }
}

/// An element of the Cartesian extension is exactly a concatenation of an
/// element of `xs` with an element of `ys`.
pub proof fn lemma_product_membership(xs: Seq<Seq<char>>, ys: Seq<Seq<char>>, s: Seq<char>)
    ensures
        product(xs, ys).contains(s) <==> exists|x: Seq<char>, y: Seq<char>|
            xs.contains(x) && ys.contains(y) && s == #[trigger] (x + y),
    decreases xs.len(),
{
    if xs.len() == 0 {
    } else {
        let pre = xs.drop_last();
        lemma_product_membership(pre, ys, s);
        let p = product(pre, ys);
        let r = row(xs.last(), ys);
        if product(xs, ys).contains(s) {
            let k = choose|k: int| 0 <= k < product(xs, ys).len() && product(xs, ys)[k] == s;
            if k < p.len() {
                assert(p.contains(s));
                let (x, y) = choose|x: Seq<char>, y: Seq<char>|
                    pre.contains(x) && ys.contains(y) && s == #[trigger] (x + y);
                assert(xs.contains(x)) by {
                    let t = choose|t: int| 0 <= t < pre.len() && pre[t] == x;
                    assert(xs[t] == x);
                }
                assert(s == x + y);
            } else {
                let t = k - p.len();
                assert(r[t] == xs.last() + ys[t]);
                assert(xs.contains(xs.last()) && ys.contains(ys[t]));
                assert(s == xs.last() + ys[t]);
            }
        }
        if exists|x: Seq<char>, y: Seq<char>| xs.contains(x) && ys.contains(y) && s == #[trigger] (x
            + y) {
            let (x, y) = choose|x: Seq<char>, y: Seq<char>|
                xs.contains(x) && ys.contains(y) && s == #[trigger] (x + y);
            let xi = choose|xi: int| 0 <= xi < xs.len() && xs[xi] == x;
            let yi = choose|yi: int| 0 <= yi < ys.len() && ys[yi] == y;
            if xi < xs.len() - 1 {
                assert(pre.contains(x)) by {
                    assert(pre[xi] == x);
                }
                assert(p.contains(s));
                let k = choose|k: int| 0 <= k < p.len() && p[k] == s;
                assert(product(xs, ys)[k] == s);
            } else {
                assert(r[yi] == xs.last() + ys[yi]);
                assert(product(xs, ys)[p.len() + yi] == s);
            }
            assert(product(xs, ys).contains(s));
        }
    }
}

/// An element of `k` Cartesian extensions of `xs` is an element of `xs`
/// followed by `k` alphabet characters, and conversely.
pub proof fn lemma_extend_all_membership(
    xs: Seq<Seq<char>>,
    ys: Seq<Seq<char>>,
    k: nat,
    s: Seq<char>,
)
    requires
        forall|i: int| 0 <= i < ys.len() ==> (#[trigger] ys[i]).len() == 1,
    ensures
        extend_all(xs, ys, k).contains(s) <==> exists|x: Seq<char>, t: Seq<char>|
            xs.contains(x) && s == #[trigger] (x + t) && t.len() == k && over_alphabet(t, ys),
    decreases k,
{
    if k == 0 {
        if extend_all(xs, ys, k).contains(s) {
            let t = Seq::<char>::empty();
            assert(s =~= s + t);
            assert(over_alphabet(t, ys));
        }
        if exists|x: Seq<char>, t: Seq<char>|
            xs.contains(x) && s == #[trigger] (x + t) && t.len() == k && over_alphabet(t, ys) {
            let (x, t) = choose|x: Seq<char>, t: Seq<char>|
                xs.contains(x) && s == #[trigger] (x + t) && t.len() == k && over_alphabet(t, ys);
            assert(s =~= x);
        }
    } else {
        lemma_extend_all_membership(product(xs, ys), ys, (k - 1) as nat, s);
        if extend_all(xs, ys, k).contains(s) {
            let (x1, t1) = choose|x1: Seq<char>, t1: Seq<char>|
                product(xs, ys).contains(x1) && s == #[trigger] (x1 + t1) && t1.len() == k - 1
                    && over_alphabet(t1, ys);
            lemma_product_membership(xs, ys, x1);
            let (x, y) = choose|x: Seq<char>, y: Seq<char>|
                xs.contains(x) && ys.contains(y) && x1 == #[trigger] (x + y);
            let t = y + t1;
            assert(s =~= x + t);
            assert(t.len() == k);
            assert(over_alphabet(t, ys)) by {
                let yi = choose|yi: int| 0 <= yi < ys.len() && ys[yi] == y;
                assert(ys[yi].len() == 1);
                assert forall|m: int| 0 <= m < t.len() implies ys.contains(seq![#[trigger] t[m]]) by {
                    if m == 0 {
                        assert(t[0] == y[0]);
                        assert(seq![y[0]] =~= y);
                    } else {
                        assert(t[m] == t1[m - 1]);
                    }
                }
            }
            assert(exists|x: Seq<char>, t: Seq<char>|
                xs.contains(x) && s == #[trigger] (x + t) && t.len() == k && over_alphabet(t, ys));
        }
        if exists|x: Seq<char>, t: Seq<char>|
            xs.contains(x) && s == #[trigger] (x + t) && t.len() == k && over_alphabet(t, ys) {
            let (x, t) = choose|x: Seq<char>, t: Seq<char>|
                xs.contains(x) && s == #[trigger] (x + t) && t.len() == k && over_alphabet(t, ys);
            let y = seq![t[0]];
            let t1 = t.drop_first();
            lemma_product_membership(xs, ys, x + y);
            assert(ys.contains(y));
            assert(product(xs, ys).contains(x + y));
            assert(s =~= (x + y) + t1);
            assert(over_alphabet(t1, ys)) by {
                assert forall|m: int| 0 <= m < t1.len() implies ys.contains(
                    seq![#[trigger] t1[m]],
                ) by {
                    assert(t1[m] == t[m + 1]);
                }
            }
            assert(extend_all(xs, ys, k).contains(s));
        }
    }
}

/// Length of `k` Cartesian extensions: each extension multiplies the count
/// by the number of unigrams.
pub proof fn lemma_extend_all_len(xs: Seq<Seq<char>>, ys: Seq<Seq<char>>, k: nat)
    ensures
        extend_all(xs, ys, k).len() == xs.len() * pow(ys.len() as int, k),
    decreases k,
{
    if k == 0 {
        vstd::arithmetic::power::lemma_pow0(ys.len() as int);
        assert(xs.len() * 1 == xs.len()) by (nonlinear_arith);
    } else {
        lemma_extend_all_len(product(xs, ys), ys, (k - 1) as nat);
        lemma_product_len(xs, ys);
        vstd::arithmetic::power::lemma_pow1(ys.len() as int);
        vstd::arithmetic::power::lemma_pow_adds(ys.len() as int, 1, (k - 1) as nat);
        assert((xs.len() * ys.len()) * pow(ys.len() as int, (k - 1) as nat) == xs.len() * (
        ys.len() * pow(ys.len() as int, (k - 1) as nat))) by (nonlinear_arith);
    }
}

/// The Cartesian extension of distinct fixed-length n-grams by distinct
/// one-character unigrams is again distinct, with length one greater.
pub proof fn lemma_product_no_duplicates(xs: Seq<Seq<char>>, ys: Seq<Seq<char>>, len: nat)
    requires
        xs.no_duplicates(),
        ys.no_duplicates(),
        forall|i: int| 0 <= i < xs.len() ==> (#[trigger] xs[i]).len() == len,
        forall|i: int| 0 <= i < ys.len() ==> (#[trigger] ys[i]).len() == 1,
    ensures
        product(xs, ys).no_duplicates(),
        forall|i: int|
            0 <= i < product(xs, ys).len() ==> (#[trigger] product(xs, ys)[i]).len() == len + 1,
    decreases xs.len(),
{
    if xs.len() == 0 {
    } else {
        let pre = xs.drop_last();
        lemma_product_no_duplicates(pre, ys, len);
        let p = product(pre, ys);
        let r = row(xs.last(), ys);
        let whole = product(xs, ys);
        assert forall|i: int| 0 <= i < whole.len() implies (#[trigger] whole[i]).len() == len
            + 1 by {
            if i < p.len() {
                assert(whole[i] == p[i]);
            } else {
                assert(whole[i] == xs.last() + ys[i - p.len()]);
            }
        }
        assert forall|i: int, j: int| 0 <= i < whole.len() && 0 <= j < whole.len() && i != j
            implies whole[i] != whole[j] by {
            lemma_product_parts(xs, ys, pre, p, r, len, i);
            lemma_product_parts(xs, ys, pre, p, r, len, j);
            let (xi, yi) = choose|xi: int, yi: int|
                0 <= xi < xs.len() && 0 <= yi < ys.len() && whole[i] == #[trigger] (xs[xi]
                    + ys[yi]) && (i < p.len() ==> xi < xs.len() - 1) && (i >= p.len() ==> xi
                    == xs.len() - 1 && yi == i - p.len()) && (i < p.len() ==> p[i] == whole[i]);
            let (xj, yj) = choose|xj: int, yj: int|
                0 <= xj < xs.len() && 0 <= yj < ys.len() && whole[j] == #[trigger] (xs[xj]
                    + ys[yj]) && (j < p.len() ==> xj < xs.len() - 1) && (j >= p.len() ==> xj
                    == xs.len() - 1 && yj == j - p.len()) && (j < p.len() ==> p[j] == whole[j]);
            if whole[i] == whole[j] {
                // equal concatenations of equal-length prefixes decompose equally
                assert((xs[xi] + ys[yi]).subrange(0, len as int) =~= xs[xi]);
                assert((xs[xj] + ys[yj]).subrange(0, len as int) =~= xs[xj]);
                assert(xs[xi] == xs[xj]);
                assert((xs[xi] + ys[yi])[len as int] == ys[yi][0]);
                assert((xs[xj] + ys[yj])[len as int] == ys[yj][0]);
                assert(seq![ys[yi][0]] =~= ys[yi]);
                assert(seq![ys[yj][0]] =~= ys[yj]);
                assert(ys[yi] == ys[yj]);
                assert(xi == xj && yi == yj);
                if i < p.len() && j < p.len() {
                    assert(p.no_duplicates());
                    assert(false);
                } else if i >= p.len() && j >= p.len() {
                    assert(false);
                } else {
                    assert(false);
                }
            }
        }
    }
}

/// Every element of the Cartesian extension decomposes into its source pair,
/// with the position determining the pair.
proof fn lemma_product_parts(
    xs: Seq<Seq<char>>,
    ys: Seq<Seq<char>>,
    pre: Seq<Seq<char>>,
    p: Seq<Seq<char>>,
    r: Seq<Seq<char>>,
    len: nat,
    i: int,
)
    requires
        xs.len() > 0,
        pre == xs.drop_last(),
        p == product(pre, ys),
        r == row(xs.last(), ys),
        0 <= i < product(xs, ys).len(),
        forall|t: int| 0 <= t < xs.len() ==> (#[trigger] xs[t]).len() == len,
    ensures
        exists|xi: int, yi: int|
            0 <= xi < xs.len() && 0 <= yi < ys.len() && product(xs, ys)[i] == #[trigger] (xs[xi]
                + ys[yi]) && (i < p.len() ==> xi < xs.len() - 1) && (i >= p.len() ==> xi == xs.len()
                - 1 && yi == i - p.len()) && (i < p.len() ==> p[i] == product(xs, ys)[i]),
    decreases xs.len(),
{
    let whole = product(xs, ys);
    if i < p.len() {
        assert(whole[i] == p[i]);
        if pre.len() > 0 {
            lemma_product_parts(pre, ys, pre.drop_last(), product(pre.drop_last(), ys), row(
                pre.last(),
                ys,
            ), len, i);
            let (xi, yi) = choose|xi: int, yi: int|
                0 <= xi < pre.len() && 0 <= yi < ys.len() && product(pre, ys)[i] == #[trigger] (
                pre[xi] + ys[yi]);
            assert(xs[xi] == pre[xi]);
            assert(whole[i] == xs[xi] + ys[yi]);
        }
    } else {
        let yi = i - p.len();
        assert(whole[i] == r[yi]);
        assert(r[yi] == xs.last() + ys[yi]);
        assert(xs[xs.len() - 1] == xs.last());
    }
}

} // verus!

verus! {

/// The first occurrences of each element of `s`, in order.
pub open spec fn dedup_views(s: Seq<Seq<char>>) -> Seq<Seq<char>>
    decreases s.len(),
{
    if s.len() == 0 {
        s
    } else {
        let d = dedup_views(s.drop_last());
        if d.contains(s.last()) {
            d
        } else {
            d.push(s.last())
        }
    }
}

/// Deduplication keeps membership, produces a duplicate-free list, and
/// leaves a duplicate-free list unchanged.
pub proof fn lemma_dedup_views(s: Seq<Seq<char>>)
    ensures
        forall|x: Seq<char>| dedup_views(s).contains(x) <==> s.contains(x),
        dedup_views(s).no_duplicates(),
        s.no_duplicates() ==> dedup_views(s) == s,
    decreases s.len(),
{
    if s.len() == 0 {
    } else {
        let pre = s.drop_last();
        lemma_dedup_views(pre);
        let d = dedup_views(pre);
        let whole = dedup_views(s);
        assert forall|x: Seq<char>| whole.contains(x) implies s.contains(x) by {
            let i = choose|i: int| 0 <= i < whole.len() && whole[i] == x;
            if i < d.len() {
                assert(d.contains(x));
                assert(pre.contains(x));
                let j = choose|j: int| 0 <= j < pre.len() && pre[j] == x;
                assert(s[j] == x);
            } else {
                assert(x == s.last());
                assert(s[s.len() - 1] == x);
            }
        }
        assert forall|x: Seq<char>| s.contains(x) implies whole.contains(x) by {
            let i = choose|i: int| 0 <= i < s.len() && s[i] == x;
            if i < s.len() - 1 {
                assert(pre[i] == x);
                assert(pre.contains(x));
                assert(d.contains(x));
                if d.contains(s.last()) {
                } else {
                    let j = choose|j: int| 0 <= j < d.len() && d[j] == x;
                    assert(whole[j] == x);
                }
            } else {
                if d.contains(s.last()) {
                    assert(whole.contains(x));
                } else {
                    assert(whole.last() == x);
                }
            }
        }
        if !d.contains(s.last()) {
            assert forall|i: int, j: int|
                0 <= i < whole.len() && 0 <= j < whole.len() && i != j implies whole[i]
                != whole[j] by {
                if i < d.len() && j < d.len() {
                    assert(d.no_duplicates());
                } else if i < d.len() {
                    assert(d.contains(d[i]));
                } else if j < d.len() {
                    assert(d.contains(d[j]));
                }
            }
        }
        if s.no_duplicates() {
            assert(pre.no_duplicates());
            assert(d == pre);
            if pre.contains(s.last()) {
                let j = choose|j: int| 0 <= j < pre.len() && pre[j] == s.last();
                assert(s[j] == s[s.len() - 1]);
                assert(false);
            }
            assert(whole =~= s);
        }
    }
}

/// A per-length count model: a mapping from every n-gram of a pre-built
/// universe to an occurrence count. All counts of one model share one
/// denominator, so a count stands for the exact fraction `num / den`; fresh
/// models have denominator one, and smoothing rescales numerators and
/// denominator together.
pub struct NGramModel {
    model: Vec<(String, u128)>,
    den: u128,
    total: u128,
}

impl NGramModel {
    /// The n-grams of the model, in insertion order.
    pub closed spec fn keys(&self) -> Seq<Seq<char>> {
        self.model@.map_values(|e: (String, u128)| e.0@)
    }

    /// The count numerators, in the same order as the keys.
    pub closed spec fn nums(&self) -> Seq<u128> {
        self.model@.map_values(|e: (String, u128)| e.1)
    }

    /// The common denominator of all counts.
    pub closed spec fn denom(&self) -> int {
        self.den as int
    }

    /// The sum of all count numerators.
    pub closed spec fn total_num(&self) -> int {
        self.total as int
    }

    /// Whether `key` is in the model's universe.
    pub open spec fn has_key(&self, key: Seq<char>) -> bool {
        self.keys().contains(key)
    }

    /// The count numerator of `key`.
    pub open spec fn num_of(&self, key: Seq<char>) -> int {
        let i = choose|i: int| 0 <= i < self.keys().len() && self.keys()[i] == key;
        self.nums()[i] as int
    }

    /// Well-formedness: distinct keys, one numerator per key, a positive
    /// denominator, and a cached total equal to the sum of the numerators.
    pub open spec fn wf(&self) -> bool {
        &&& self.keys().no_duplicates()
        &&& self.nums().len() == self.keys().len()
        &&& self.denom() >= 1
        &&& self.total_num() == sum_nums(self.nums())
    }

    /// A fresh model: every given n-gram mapped to count zero, duplicates
    /// collapsed, denominator one.
    pub fn from_ngrams(ngrams: &Vec<String>) -> (r: Result<
        NGramModel,
        crate::models::errors::NGramModelError,
    >)
        ensures
            r is Ok,
            r->Ok_0.wf(),
            r->Ok_0.keys() == dedup_views(string_views(ngrams@)),
            r->Ok_0.denom() == 1,
            r->Ok_0.total_num() == 0,
            forall|i: int| 0 <= i < r->Ok_0.nums().len() ==> r->Ok_0.nums()[i] == 0,
            forall|key: Seq<char>|
                #[trigger] r->Ok_0.has_key(key) <==> string_views(ngrams@).contains(key),
    {
        let mut model: Vec<(String, u128)> = Vec::new();
        let mut i: usize = 0;
        while i < ngrams.len()
            invariant
                i <= ngrams@.len(),
                model@.map_values(|e: (String, u128)| e.0@) =~= dedup_views(
                    string_views(ngrams@).subrange(0, i as int),
                ),
                forall|k: int| 0 <= k < model@.len() ==> (#[trigger] model@[k]).1 == 0,
            decreases ngrams@.len() - i,
        {
            let ghost prefix = string_views(ngrams@).subrange(0, i as int);
            let ghost prefix1 = string_views(ngrams@).subrange(0, i + 1);
            proof {
                assert(prefix1.drop_last() =~= prefix);
                assert(prefix1.last() == ngrams@[i as int]@);
            }
            if !contains_key(&model, &ngrams[i]) {
                let k = ngrams[i].clone();
                model.push((k, 0));
                proof {
                    let cur = model@.map_values(|e: (String, u128)| e.0@);
                    let prev = model@.subrange(0, model@.len() - 1).map_values(
                        |e: (String, u128)| e.0@,
                    );
                    assert forall|t: int| 0 <= t < cur.len() implies cur[t] == dedup_views(
                        prefix1,
                    )[t] by {
                        assert(cur[t] == model@[t].0@);
                        if t < cur.len() - 1 {
                            assert(dedup_views(prefix1)[t] == dedup_views(prefix)[t]);
                        }
                    }
                    assert(cur =~= dedup_views(prefix1));
                }
            }
            i = i + 1;
        }
        proof {
            assert(string_views(ngrams@).subrange(0, ngrams@.len() as int) =~= string_views(
                ngrams@,
            ));
            lemma_dedup_views(string_views(ngrams@));
        }
        let r = NGramModel { model, den: 1, total: 0 };
        proof {
            lemma_zero_sum(r.nums());
        }
        Ok(r)
    }

    /// The number of n-grams in the model's universe.
    pub fn get_vocabulary_size(&self) -> (n: usize)
        ensures
            n == self.keys().len(),
    {
        self.model.len()
    }

    /// The common denominator.
    pub fn get_den(&self) -> (d: u128)
        ensures
            d == self.denom(),
    {
        self.den
    }

    /// The n-gram at position `i` of the universe.
    pub fn key_at(&self, i: usize) -> (k: &String)
        requires
            i < self.keys().len(),
        ensures
            k@ == self.keys()[i as int],
    {
        proof {
            assert(self.keys()[i as int] == self.model@[i as int].0@);
        }
        &self.model[i].0
    }

    /// The count numerator at position `i` of the universe.
    pub fn num_at(&self, i: usize) -> (n: u128)
        requires
            i < self.keys().len(),
        ensures
            n == self.nums()[i as int],
    {
        proof {
            assert(self.nums()[i as int] == self.model@[i as int].1);
        }
        self.model[i].1
    }

    /// The occurrence count of `ngram`, as an exact fraction, or `None` when
    /// the n-gram is not part of the universe.
    pub fn get_ngram_count(&self, ngram: &str) -> (r: Option<crate::models::Ratio>)
        requires
            self.wf(),
        ensures
            match r {
                Some(c) => self.has_key(ngram@) && c.num == self.num_of(ngram@) && c.den
                    == self.denom(),
                None => !self.has_key(ngram@),
            },
    {
        let key = String::from_str(ngram);
        let mut i: usize = 0;
        while i < self.model.len()
            invariant
                i <= self.model@.len(),
                key@ == ngram@,
                self.wf(),
                forall|k: int| 0 <= k < i ==> (#[trigger] self.model@[k]).0@ != ngram@,
            decreases self.model@.len() - i,
        {
            if self.model[i].0 == key {
                proof {
                    assert(self.keys()[i as int] == self.model@[i as int].0@);
                    assert(self.keys().contains(ngram@));
                    let c = choose|c: int|
                        0 <= c < self.keys().len() && self.keys()[c] == ngram@;
                    if c != i {
                        assert(false);
                    }
                    assert(self.nums()[i as int] == self.model@[i as int].1);
                }
                return Some(crate::models::Ratio { num: self.model[i].1, den: self.den });
            }
            i = i + 1;
        }
        proof {
            if self.keys().contains(ngram@) {
                let c = choose|c: int| 0 <= c < self.keys().len() && self.keys()[c] == ngram@;
                assert(self.keys()[c] == self.model@[c].0@);
                assert(false);
            }
        }
        None
    }

    /// The sum of all counts, as an exact fraction.
    pub fn get_total_ngram_count(&self) -> (r: crate::models::Ratio)
        requires
            self.wf(),
        ensures
            r.num == self.total_num(),
            r.den == self.denom(),
    {
        crate::models::Ratio { num: self.total, den: self.den }
    }

    /// Count one occurrence of `ngram`: its numerator grows by the
    /// denominator, so its fraction grows by one. Fails exactly when the
    /// n-gram is missing from the universe or when the total would no longer
    /// be representable.
    pub fn add_ngram(&mut self, ngram: &str) -> (r: Result<
        (),
        crate::models::errors::NGramModelError,
    >)
        requires
            old(self).wf(),
        ensures
            final(self).wf(),
            final(self).keys() == old(self).keys(),
            final(self).denom() == old(self).denom(),
            r is Ok <==> (old(self).has_key(ngram@) && old(self).total_num() + old(self).denom()
                <= u128::MAX),
            r is Ok ==> {
                &&& final(self).total_num() == old(self).total_num() + old(self).denom()
                &&& exists|i: int|
                    0 <= i < old(self).keys().len() && old(self).keys()[i] == ngram@
                        && final(self).nums() == old(self).nums().update(
                        i,
                        (old(self).nums()[i] + old(self).denom()) as u128,
                    )
            },
            r is Err ==> *final(self) == *old(self),
    {
        let key = String::from_str(ngram);
        let mut i: usize = 0;
        while i < self.model.len()
            invariant
                i <= self.model@.len(),
                key@ == ngram@,
                self == old(self),
                old(self).wf(),
                forall|k: int| 0 <= k < i ==> (#[trigger] self.model@[k]).0@ != ngram@,
            decreases self.model@.len() - i,
        {
            if self.model[i].0 == key {
                proof {
                    assert(self.keys()[i as int] == self.model@[i as int].0@);
                    assert(self.keys().contains(ngram@));
                }
                match self.total.checked_add(self.den) {
                    Some(t) => {
                        proof {
                            lemma_sum_nums_bounds(self.nums(), i as int);
                            assert(self.nums()[i as int] == self.model@[i as int].1);
                        }
                        let n = self.model[i].1 + self.den;
                        let k2 = self.model[i].0.clone();
                        self.model.set(i, (k2, n));
                        self.total = t;
                        proof {
                            let onums = old(self).nums();
                            assert forall|k: int| 0 <= k < self.nums().len()
                                implies self.nums()[k] == onums.update(
                                i as int,
                                (onums[i as int] + old(self).denom()) as u128,
                            )[k] by {
                                assert(self.nums()[k] == self.model@[k].1);
                                assert(onums[k] == old(self).model@[k].1);
                            }
                            assert(self.nums() =~= onums.update(
                                i as int,
                                (onums[i as int] + old(self).denom()) as u128,
                            ));
                            assert forall|k: int| 0 <= k < self.keys().len()
                                implies self.keys()[k] == old(self).keys()[k] by {
                                assert(self.keys()[k] == self.model@[k].0@);
                                assert(old(self).keys()[k] == old(self).model@[k].0@);
                            }
                            assert(self.keys() =~= old(self).keys());
                            lemma_sum_nums_update(
                                onums,
                                i as int,
                                (onums[i as int] + old(self).denom()) as u128,
                            );
                        }
                        return Ok(());
                    },
                    None => {
                        return Err(crate::models::errors::NGramModelError::new(
                            "count total exceeds the representable range",
                        ));
                    },
                }
            }
            i = i + 1;
        }
        proof {
            if self.keys().contains(ngram@) {
                let c = choose|c: int| 0 <= c < self.keys().len() && self.keys()[c] == ngram@;
                assert(self.keys()[c] == self.model@[c].0@);
                assert(false);
            }
        }
        Err(crate::models::errors::NGramModelError::new("unknown ngram"))
    }

    /// Count every n-gram of the list, in order. Fails on the first n-gram
    /// missing from the universe, or when the total would overflow; on
    /// success every count has grown by the number of occurrences in the
    /// list.
    pub fn add_ngrams(&mut self, ngrams: &Vec<String>) -> (r: Result<
        (),
        crate::models::errors::NGramModelError,
    >)
        requires
            old(self).wf(),
        ensures
            final(self).wf(),
            final(self).keys() == old(self).keys(),
            final(self).denom() == old(self).denom(),
            r is Ok <==> ((forall|i: int|
                0 <= i < ngrams@.len() ==> old(self).has_key(
                    #[trigger] string_views(ngrams@)[i],
                )) && old(self).total_num() + ngrams@.len() * old(self).denom() <= u128::MAX),
            r is Ok ==> {
                &&& final(self).total_num() == old(self).total_num() + ngrams@.len() * old(
                    self,
                ).denom()
                &&& forall|k: int|
                    0 <= k < old(self).keys().len() ==> final(self).nums()[k] == old(
                        self,
                    ).nums()[k] + count_matches(string_views(ngrams@), old(self).keys()[k])
                        * old(self).denom()
            },
    {
        let ghost ws = string_views(ngrams@);
        let mut i: usize = 0;
        while i < ngrams.len()
            invariant
                i <= ngrams@.len(),
                ws == string_views(ngrams@),
                old(self).wf(),
                self.wf(),
                self.keys() == old(self).keys(),
                self.denom() == old(self).denom(),
                self.total_num() == old(self).total_num() + i * old(self).denom(),
                forall|k: int|
                    0 <= k < old(self).keys().len() ==> self.nums()[k] == old(self).nums()[k]
                        + count_matches(ws.subrange(0, i as int), old(self).keys()[k]) * old(
                        self,
                    ).denom(),
                forall|t: int| 0 <= t < i ==> old(self).has_key(#[trigger] ws[t]),
            decreases ngrams@.len() - i,
        {
            let ghost prefix = ws.subrange(0, i as int);
            let ghost prefix1 = ws.subrange(0, i + 1);
            proof {
                assert(prefix1.drop_last() =~= prefix);
                assert(prefix1.last() == ws[i as int]);
                assert(ws[i as int] == ngrams@[i as int]@);
            }
            let ghost snapshot = *self;
            match self.add_ngram(ngrams[i].as_str()) {
                Ok(()) => {
                    proof {
                        let key = ws[i as int];
                        let ci = choose|ci: int|
                            0 <= ci < snapshot.keys().len() && snapshot.keys()[ci] == key
                                && self.nums() == snapshot.nums().update(
                                ci,
                                (snapshot.nums()[ci] + snapshot.denom()) as u128,
                            );
                        assert(snapshot.total_num() + snapshot.denom() <= u128::MAX);
                        lemma_sum_nums_bounds(snapshot.nums(), ci);
                        assert(snapshot.nums()[ci] + snapshot.denom() <= u128::MAX);
                        assert(self.nums()[ci] == snapshot.nums()[ci] + snapshot.denom());
                        assert forall|k: int| 0 <= k < old(self).keys().len()
                            implies self.nums()[k] == old(self).nums()[k] + count_matches(
                            prefix1,
                            old(self).keys()[k],
                        ) * old(self).denom() by {
                            if k == ci {
                                assert(count_matches(prefix1, old(self).keys()[k])
                                    == count_matches(prefix, old(self).keys()[k]) + 1);
                                let cm = count_matches(prefix, old(self).keys()[k]);
                                let dn = old(self).denom();
                                assert((cm + 1) * dn == cm * dn + dn) by (nonlinear_arith);
                            } else {
                                assert(old(self).keys()[k] != key) by {
                                    if old(self).keys()[k] == key {
                                        assert(old(self).keys().no_duplicates());
                                        assert(false);
                                    }
                                }
                                assert(count_matches(prefix1, old(self).keys()[k])
                                    == count_matches(prefix, old(self).keys()[k]));
                            }
                        }
                        let dn = old(self).denom();
                        let ii = i as int;
                        assert((ii + 1) * dn == ii * dn + dn) by (nonlinear_arith);
                    }
                },
                Err(e) => {
                    proof {
                        let dn = old(self).denom();
                        let ii = i as int;
                        let ln = ngrams@.len() as int;
                        // either the key is missing or the total overflowed
                        if snapshot.has_key(ws[i as int]) {
                            assert(snapshot.total_num() + snapshot.denom() > u128::MAX);
                            assert(ii * dn + dn <= ln * dn) by (nonlinear_arith)
                                requires
                                    0 <= ii < ln,
                                    dn >= 1,
                            ;
                            assert(old(self).total_num() + ngrams@.len() * old(self).denom()
                                > u128::MAX);
                        }
                        // the loop state is exactly the partial update up to i
                        assert((ii + 1) * dn == ii * dn + dn) by (nonlinear_arith);
                        assert(!(old(self).has_key(ws[ii]) && old(self).total_num() + (ii + 1)
                            * dn <= u128::MAX));
                        assert(0 <= ii < ngrams@.len() && (forall|t: int|
                            0 <= t < ii ==> old(self).has_key(#[trigger] ws[t])) && self
                            .total_num() == old(self).total_num() + ii * dn && (forall|k: int|
                            0 <= k < old(self).keys().len() ==> self.nums()[k] == old(self).nums()[k] + count_matches(ws.subrange(0, ii), old(self).keys()[k]) * dn)
                            && !(old(self).has_key(ws[ii]) && old(self).total_num() + (ii + 1)
                            * dn <= u128::MAX));
                    }
                    return Err(e);
                },
            }
            i = i + 1;
        }
        proof {
            assert(ws.subrange(0, ws.len() as int) =~= ws);
        }
        Ok(())
    }
}

/// Whether `key` is one of the keys of the list.
fn contains_key(model: &Vec<(String, u128)>, key: &String) -> (r: bool)
    ensures
        r == model@.map_values(|e: (String, u128)| e.0@).contains(key@),
{
    let ghost keys = model@.map_values(|e: (String, u128)| e.0@);
    let mut i: usize = 0;
    while i < model.len()
        invariant
            i <= model@.len(),
            keys == model@.map_values(|e: (String, u128)| e.0@),
            forall|k: int| 0 <= k < i ==> (#[trigger] model@[k]).0@ != key@,
        decreases model@.len() - i,
    {
        if model[i].0 == *key {
            proof {
                assert(keys[i as int] == model@[i as int].0@);
                assert(keys.contains(key@));
            }
            return true;
        }
        i = i + 1;
    }
    proof {
        if keys.contains(key@) {
            let c = choose|c: int| 0 <= c < keys.len() && keys[c] == key@;
            assert(keys[c] == model@[c].0@);
            assert(false);
        }
    }
    false
}

/// The sum of all-zero counts is zero.
proof fn lemma_zero_sum(s: Seq<u128>)
    requires
        forall|i: int| 0 <= i < s.len() ==> s[i] == 0,
    ensures
        sum_nums(s) == 0,
    decreases s.len(),
{
    if s.len() > 0 {
        lemma_zero_sum(s.drop_last());
    }
}

} // verus!

verus! {

/// The number of positive counts (n-gram types seen at least once).
pub open spec fn count_positive(s: Seq<u128>) -> int
    decreases s.len(),
{
    if s.len() == 0 {
        0
    } else {
        count_positive(s.drop_last()) + if s.last() > 0 {
            1int
        } else {
            0int
        }
    }
}

/// The number of zero counts (n-gram types never seen).
pub open spec fn count_zero(s: Seq<u128>) -> int
    decreases s.len(),
{
    if s.len() == 0 {
        0
    } else {
        count_zero(s.drop_last()) + if s.last() == 0 {
            1int
        } else {
            0int
        }
    }
}

/// Seen and unseen types partition the universe.
pub proof fn lemma_seen_unseen_partition(s: Seq<u128>)
    ensures
        count_positive(s) + count_zero(s) == s.len(),
        0 <= count_positive(s),
        0 <= count_zero(s),
    decreases s.len(),
{
    if s.len() > 0 {
        lemma_seen_unseen_partition(s.drop_last());
    }
}

/// Sum of the add-one-rescaled counts: rescaling every count `n` to
/// `(n + d) * t` turns a sum `t` over `v` counts into `t * (t + v * d)`.
proof fn lemma_add_one_sum(olds: Seq<u128>, news: Seq<u128>, t: int, d: int)
    requires
        news.len() == olds.len(),
        forall|k: int| 0 <= k < olds.len() ==> news[k] == (olds[k] + d) * t,
    ensures
        sum_nums(news) == (sum_nums(olds) + olds.len() * d) * t,
    decreases olds.len(),
{
    if olds.len() == 0 {
        assert(sum_nums(news) == 0);
        assert(sum_nums(olds) == 0);
        assert((0 + olds.len() * d) * t == 0) by (nonlinear_arith)
            requires
                olds.len() == 0,
        ;
    } else {
        let op = olds.drop_last();
        let np = news.drop_last();
        assert forall|k: int| 0 <= k < op.len() implies np[k] == (op[k] + d) * t by {
            assert(np[k] == news[k]);
            assert(op[k] == olds[k]);
        }
        lemma_add_one_sum(op, np, t, d);
        assert(news.last() == (olds.last() + d) * t);
        let so = sum_nums(op);
        let lo = op.len() as int;
        let last = olds.last() as int;
        assert(sum_nums(news) == sum_nums(np) + news.last());
        assert(sum_nums(np) == (so + lo * d) * t);
        assert(sum_nums(olds) == so + last);
        assert(olds.len() == lo + 1);
        assert((so + lo * d) * t + (last + d) * t == (so + last + (lo + 1) * d) * t)
            by (nonlinear_arith);
        assert(sum_nums(news) == (so + last + (lo + 1) * d) * t);
        assert((sum_nums(olds) + olds.len() * d) * t == (so + last + (lo + 1) * d) * t);
    }
}

/// Sum of the Witten-Bell-rescaled counts: positive counts `n` become
/// `n * t * u`, zero counts become `s * t * d`; with `t` the old sum, `p`
/// positive counts and `z` zero counts, the new sum is
/// `t * u * t + z * (s * t * d)`.
proof fn lemma_witten_bell_sum(olds: Seq<u128>, news: Seq<u128>, t: int, u: int, s: int, d: int)
    requires
        news.len() == olds.len(),
        forall|k: int|
            0 <= k < olds.len() ==> news[k] == if olds[k] > 0 {
                olds[k] * t * u
            } else {
                s * t * d
            },
    ensures
        sum_nums(news) == sum_nums(olds) * t * u + count_zero(olds) * (s * t * d),
    decreases olds.len(),
{
    if olds.len() == 0 {
        assert(sum_nums(news) == 0);
        assert(count_zero(olds) == 0);
        assert(sum_nums(olds) == 0);
        assert(0 * t * u + 0 * (s * t * d) == 0) by (nonlinear_arith);
    } else {
        let op = olds.drop_last();
        let np = news.drop_last();
        assert forall|k: int| 0 <= k < op.len() implies np[k] == (if op[k] > 0 {
            op[k] * t * u
        } else {
            s * t * d
        }) by {
            assert(np[k] == news[k]);
            assert(op[k] == olds[k]);
        }
        lemma_witten_bell_sum(op, np, t, u, s, d);
        let so = sum_nums(op);
        let last = olds.last() as int;
        let cz = count_zero(op);
        assert(sum_nums(news) == sum_nums(np) + news.last());
        assert(sum_nums(np) == so * t * u + cz * (s * t * d));
        assert(sum_nums(olds) == so + last);
        if olds.last() > 0 {
            assert(news.last() == olds.last() * t * u);
            assert(count_zero(olds) == cz);
            assert(so * t * u + last * t * u == (so + last) * t * u) by (nonlinear_arith);
            assert(sum_nums(news) == (so + last) * t * u + cz * (s * t * d));
        } else {
            assert(news.last() == s * t * d);
            assert(count_zero(olds) == cz + 1);
            assert(last == 0);
            assert(so * t * u == (so + 0) * t * u) by (nonlinear_arith);
            assert(sum_nums(news) == (so + last) * t * u + (cz + 1) * (s * t * d))
                by (nonlinear_arith)
                requires
                    sum_nums(news) == so * t * u + cz * (s * t * d) + s * t * d,
                    last == 0,
            ;
        }
    }
}

impl NGramModel {
    /// The number of n-gram types with a positive count.
    pub fn get_seen_type_count(&self) -> (n: usize)
        ensures
            n == count_positive(self.nums()),
    {
        let mut n: usize = 0;
        let mut i: usize = 0;
        while i < self.model.len()
            invariant
                i <= self.model@.len(),
                n == count_positive(self.nums().subrange(0, i as int)),
                n <= i,
            decreases self.model@.len() - i,
        {
            proof {
                let pre = self.nums().subrange(0, i as int);
                let cur = self.nums().subrange(0, i + 1);
                assert(cur.drop_last() =~= pre);
                assert(cur.last() == self.nums()[i as int]);
                assert(self.nums()[i as int] == self.model@[i as int].1);
            }
            if self.model[i].1 > 0 {
                n = n + 1;
            }
            i = i + 1;
        }
        proof {
            assert(self.nums().subrange(0, self.nums().len() as int) =~= self.nums());
        }
        n
    }

    /// The number of n-gram types with a zero count.
    pub fn get_unseen_type_count(&self) -> (n: usize)
        ensures
            n == count_zero(self.nums()),
    {
        let mut n: usize = 0;
        let mut i: usize = 0;
        while i < self.model.len()
            invariant
                i <= self.model@.len(),
                n == count_zero(self.nums().subrange(0, i as int)),
                n <= i,
            decreases self.model@.len() - i,
        {
            proof {
                let pre = self.nums().subrange(0, i as int);
                let cur = self.nums().subrange(0, i + 1);
                assert(cur.drop_last() =~= pre);
                assert(cur.last() == self.nums()[i as int]);
                assert(self.nums()[i as int] == self.model@[i as int].1);
            }
            if self.model[i].1 == 0 {
                n = n + 1;
            }
            i = i + 1;
        }
        proof {
            assert(self.nums().subrange(0, self.nums().len() as int) =~= self.nums());
        }
        n
    }

    /// Add-one rescaling: every count `c` becomes `(c + 1) * t / (t + v)`,
    /// where `t` is the sum of all counts and `v` the vocabulary size. In
    /// fraction form, numerators become `(num + den) * t_num` over the new
    /// denominator `den * (t_num + v * den)`. Fails, leaving the model
    /// unchanged, exactly when the rescaled numbers exceed the representable
    /// range.
    pub fn apply_add_one(&mut self) -> (r: Result<(), crate::smoothing::errors::SmoothingError>)
        requires
            old(self).wf(),
        ensures
            final(self).wf(),
            final(self).keys() == old(self).keys(),
            ({
                let t = old(self).total_num();
                let d = old(self).denom();
                let v = old(self).keys().len() as int;
                &&& (r is Ok <==> (v == 0 || (d * (t + v * d) <= u128::MAX && t * (t + v * d)
                    <= u128::MAX)))
                &&& (r is Ok && v > 0 ==> {
                    &&& final(self).denom() == d * (t + v * d)
                    &&& final(self).total_num() == t * (t + v * d)
                    &&& forall|k: int|
                        0 <= k < v ==> final(self).nums()[k] == (old(self).nums()[k] + d) * t
                })
                &&& (r is Ok && v == 0 ==> *final(self) == *old(self))
                &&& (r is Err ==> *final(self) == *old(self))
            }),
    {
        let v = self.model.len();
        if v == 0 {
            return Ok(());
        }
        let t = self.total;
        let d = self.den;
        let vd = match (v as u128).checked_mul(d) {
            Some(x) => x,
            None => {
                proof {
                    let ti = t as int;
                    let di = d as int;
                    let vi = v as int;
                    assert(vi * di <= di * (ti + vi * di)) by (nonlinear_arith)
                        requires
                            di >= 1,
                            ti >= 0,
                            vi >= 0,
                    ;
                }
                return Err(crate::smoothing::errors::SmoothingError::new(
                    "rescaled counts exceed the representable range",
                ));
            },
        };
        let base = match t.checked_add(vd) {
            Some(x) => x,
            None => {
                proof {
                    let ti = t as int;
                    let di = d as int;
                    let vi = v as int;
                    assert(ti + vi * di <= di * (ti + vi * di)) by (nonlinear_arith)
                        requires
                            di >= 1,
                            ti >= 0,
                            vi >= 0,
                    ;
                }
                return Err(crate::smoothing::errors::SmoothingError::new(
                    "rescaled counts exceed the representable range",
                ));
            },
        };
        let new_den = match d.checked_mul(base) {
            Some(x) => x,
            None => {
                return Err(crate::smoothing::errors::SmoothingError::new(
                    "rescaled counts exceed the representable range",
                ));
            },
        };
        let new_total = match t.checked_mul(base) {
            Some(x) => x,
            None => {
                return Err(crate::smoothing::errors::SmoothingError::new(
                    "rescaled counts exceed the representable range",
                ));
            },
        };
        let mut new_model: Vec<(String, u128)> = Vec::new();
        let mut i: usize = 0;
        while i < self.model.len()
            invariant
                i <= self.model@.len(),
                self == old(self),
                old(self).wf(),
                v == self.model@.len(),
                t == self.total,
                d == self.den,
                base == t + v * d,
                new_den == d as int * base,
                new_total == t as int * base,
                new_model@.len() == i,
                forall|k: int|
                    0 <= k < i ==> (#[trigger] new_model@[k]).0@ == self.keys()[k]
                        && new_model@[k].1 == (self.nums()[k] + d) * t,
            decreases self.model@.len() - i,
        {
            proof {
                lemma_sum_nums_bounds(self.nums(), i as int);
                assert(self.nums()[i as int] == self.model@[i as int].1);
                let ni = self.nums()[i as int] as int;
                let ti = t as int;
                let di = d as int;
                let vi = v as int;
                assert(ni + di <= di * (ti + vi * di)) by (nonlinear_arith)
                    requires
                        0 <= ni <= ti,
                        di >= 1,
                        vi >= 1,
                ;
                assert((ni + di) * ti <= ti * (ti + vi * di)) by (nonlinear_arith)
                    requires
                        0 <= ni <= ti,
                        di >= 1,
                        vi >= 1,
                ;
            }
            let key = self.model[i].0.clone();
            let num = (self.model[i].1 + d) * t;
            new_model.push((key, num));
            i = i + 1;
        }
        self.model = new_model;
        self.den = new_den;
        self.total = new_total;
        proof {
            assert forall|k: int| 0 <= k < self.keys().len() implies self.keys()[k] == old(
                self,
            ).keys()[k] by {
                assert(self.keys()[k] == self.model@[k].0@);
                assert(old(self).keys()[k] == old(self).model@[k].0@);
            }
            assert(self.keys() =~= old(self).keys());
            assert forall|k: int| 0 <= k < self.nums().len() implies self.nums()[k] == (old(
                self,
            ).nums()[k] + d) * t by {
                assert(self.nums()[k] == self.model@[k].1);
            }
            lemma_add_one_sum(old(self).nums(), self.nums(), t as int, d as int);
            let ti = t as int;
            let di = d as int;
            let vi = v as int;
            assert((ti + vi * di) * ti == ti * (ti + vi * di)) by (nonlinear_arith);
            assert(di * (ti + vi * di) >= 1) by (nonlinear_arith)
                requires
                    di >= 1,
                    ti >= 0,
                    vi >= 1,
            ;
        }
        Ok(())
    }

    /// Witten-Bell rescaling: with `t` the sum of counts, `s` the number of
    /// seen types and `u` the number of unseen types, every seen count `c`
    /// becomes `c * t / (t + s)` and every unseen count becomes
    /// `(s / u) * t / (t + s)`. When nothing is seen, or nothing is unseen,
    /// there is no mass to move and the counts stay unchanged. Fails, leaving
    /// the model unchanged, exactly when the rescaled numbers exceed the
    /// representable range.
    pub fn apply_witten_bell(&mut self) -> (r: Result<
        (),
        crate::smoothing::errors::SmoothingError,
    >)
        requires
            old(self).wf(),
        ensures
            final(self).wf(),
            final(self).keys() == old(self).keys(),
            ({
                let t = old(self).total_num();
                let d = old(self).denom();
                let s = count_positive(old(self).nums());
                let u = count_zero(old(self).nums());
                &&& (r is Ok <==> (s == 0 || u == 0 || (d * u * (t + s * d) <= u128::MAX && t * u
                    * (t + s * d) <= u128::MAX)))
                &&& (r is Ok && s > 0 && u > 0 ==> {
                    &&& final(self).denom() == d * u * (t + s * d)
                    &&& final(self).total_num() == t * u * (t + s * d)
                    &&& forall|k: int|
                        0 <= k < old(self).nums().len() ==> final(self).nums()[k] == (
                        if old(self).nums()[k] > 0 {
                            old(self).nums()[k] * t * u
                        } else {
                            s * (t * d)
                        })
                })
                &&& ((s == 0 || u == 0) && r is Ok ==> *final(self) == *old(self))
                &&& (r is Err ==> *final(self) == *old(self))
            }),
    {
        let seen = self.get_seen_type_count();
        let unseen = self.get_unseen_type_count();
        if seen == 0 || unseen == 0 {
            return Ok(());
        }
        let t = self.total;
        let d = self.den;
        let ghost ti = t as int;
        let ghost di = d as int;
        let ghost si = seen as int;
        let ghost ui = unseen as int;
        proof {
            lemma_seen_unseen_partition(self.nums());
        }
        let sd = match (seen as u128).checked_mul(d) {
            Some(x) => x,
            None => {
                proof {
                    assert(si * di <= di * ui * (ti + si * di)) by (nonlinear_arith)
                        requires
                            di >= 1,
                            ti >= 0,
                            si >= 1,
                            ui >= 1,
                    ;
                }
                return Err(crate::smoothing::errors::SmoothingError::new(
                    "rescaled counts exceed the representable range",
                ));
            },
        };
        let base = match t.checked_add(sd) {
            Some(x) => x,
            None => {
                proof {
                    assert(ti + si * di <= di * ui * (ti + si * di)) by (nonlinear_arith)
                        requires
                            di >= 1,
                            ti >= 0,
                            si >= 1,
                            ui >= 1,
                    ;
                }
                return Err(crate::smoothing::errors::SmoothingError::new(
                    "rescaled counts exceed the representable range",
                ));
            },
        };
        let du = match d.checked_mul(unseen as u128) {
            Some(x) => x,
            None => {
                proof {
                    assert(di * ui <= di * ui * (ti + si * di)) by (nonlinear_arith)
                        requires
                            di >= 1,
                            ti >= 0,
                            si >= 1,
                            ui >= 1,
                    ;
                }
                return Err(crate::smoothing::errors::SmoothingError::new(
                    "rescaled counts exceed the representable range",
                ));
            },
        };
        let new_den = match du.checked_mul(base) {
            Some(x) => x,
            None => {
                proof {
                    assert(di * ui * (ti + si * di) == (di * ui) * (ti + si * di))
                        by (nonlinear_arith);
                }
                return Err(crate::smoothing::errors::SmoothingError::new(
                    "rescaled counts exceed the representable range",
                ));
            },
        };
        let tu = match t.checked_mul(unseen as u128) {
            Some(x) => x,
            None => {
                proof {
                    assert(ti * ui <= ti * ui * (ti + si * di)) by (nonlinear_arith)
                        requires
                            di >= 1,
                            ti >= 0,
                            si >= 1,
                            ui >= 1,
                    ;
                }
                return Err(crate::smoothing::errors::SmoothingError::new(
                    "rescaled counts exceed the representable range",
                ));
            },
        };
        let new_total = match tu.checked_mul(base) {
            Some(x) => x,
            None => {
                proof {
                    assert(ti * ui * (ti + si * di) == (ti * ui) * (ti + si * di))
                        by (nonlinear_arith);
                }
                return Err(crate::smoothing::errors::SmoothingError::new(
                    "rescaled counts exceed the representable range",
                ));
            },
        };
        let unseen_num = {
            proof {
                assert(ti * di <= ti * ui * (ti + si * di) && si * (ti * di) <= ti * ui * (ti + si
                    * di)) by (nonlinear_arith)
                    requires
                        di >= 1,
                        ti >= 0,
                        si >= 1,
                        ui >= 1,
                ;
            }
            (seen as u128) * (t * d)
        };
        let mut new_model: Vec<(String, u128)> = Vec::new();
        let mut i: usize = 0;
        while i < self.model.len()
            invariant
                i <= self.model@.len(),
                self == old(self),
                old(self).wf(),
                t == self.total,
                d == self.den,
                ti == t as int,
                di == d as int,
                si == count_positive(self.nums()),
                ui == count_zero(self.nums()),
                si == seen as int,
                ui == unseen as int,
                si >= 1,
                ui >= 1,
                base == ti + si * di,
                new_den == di * ui * base,
                new_total == ti * ui * base,
                unseen_num == si * (ti * di),
                new_model@.len() == i,
                forall|k: int|
                    0 <= k < i ==> (#[trigger] new_model@[k]).0@ == self.keys()[k]
                        && new_model@[k].1 == (if self.nums()[k] > 0 {
                        self.nums()[k] * ti * ui
                    } else {
                        si * (ti * di)
                    }),
            decreases self.model@.len() - i,
        {
            proof {
                lemma_sum_nums_bounds(self.nums(), i as int);
                assert(self.nums()[i as int] == self.model@[i as int].1);
                let ni = self.nums()[i as int] as int;
                assert(ni * ti <= ti * ui * (ti + si * di) && (ni * ti) * ui <= ti * ui * (ti + si
                    * di)) by (nonlinear_arith)
                    requires
                        0 <= ni <= ti,
                        di >= 1,
                        si >= 1,
                        ui >= 1,
                ;
                assert(ti * ui * (ti + si * di) == new_total as int);
                assert(ni * ti <= u128::MAX);
                assert((ni * ti) * ui <= u128::MAX);
            }
            let key = self.model[i].0.clone();
            let cnt = self.model[i].1;
            proof {
                assert(cnt as int == self.nums()[i as int] as int);
                assert((cnt as int) * (t as int) <= u128::MAX);
                assert(((cnt as int) * (t as int)) * (unseen as int) <= u128::MAX);
            }
            let num = if cnt > 0 {
                cnt * t * unseen as u128
            } else {
                unseen_num
            };
            new_model.push((key, num));
            i = i + 1;
        }
        self.model = new_model;
        self.den = new_den;
        self.total = new_total;
        proof {
            assert forall|k: int| 0 <= k < self.keys().len() implies self.keys()[k] == old(
                self,
            ).keys()[k] by {
                assert(self.keys()[k] == self.model@[k].0@);
                assert(old(self).keys()[k] == old(self).model@[k].0@);
            }
            assert(self.keys() =~= old(self).keys());
            assert forall|k: int| 0 <= k < self.nums().len() implies self.nums()[k] == (
            if old(self).nums()[k] > 0 {
                old(self).nums()[k] * ti * ui
            } else {
                si * (ti * di)
            }) by {
                assert(self.nums()[k] == self.model@[k].1);
            }
            assert forall|k: int| 0 <= k < self.nums().len() implies self.nums()[k] == (
            if old(self).nums()[k] > 0 {
                old(self).nums()[k] * ti * ui
            } else {
                si * ti * di
            }) by {
                assert(self.nums()[k] == self.model@[k].1);
                assert(si * (ti * di) == si * ti * di) by (nonlinear_arith);
            }
            lemma_witten_bell_sum(old(self).nums(), self.nums(), ti, ui, si, di);
            assert(ti * ui * (ti + si * di) == ti * ti * ui + ui * (si * ti * di))
                by (nonlinear_arith);
            assert(si * (ti * di) == si * ti * di) by (nonlinear_arith);
            assert(di * ui * (ti + si * di) >= 1) by (nonlinear_arith)
                requires
                    di >= 1,
                    ti >= 0,
                    si >= 1,
                    ui >= 1,
            ;
        }
        Ok(())
    }
}

} // verus!

verus! {

/// Repeated Cartesian extension keeps distinctness and fixed length.
pub proof fn lemma_extend_all_no_duplicates(
    xs: Seq<Seq<char>>,
    ys: Seq<Seq<char>>,
    k: nat,
    len: nat,
)
    requires
        xs.no_duplicates(),
        ys.no_duplicates(),
        forall|i: int| 0 <= i < xs.len() ==> (#[trigger] xs[i]).len() == len,
        forall|i: int| 0 <= i < ys.len() ==> (#[trigger] ys[i]).len() == 1,
    ensures
        extend_all(xs, ys, k).no_duplicates(),
        forall|i: int|
            0 <= i < extend_all(xs, ys, k).len() ==> (#[trigger] extend_all(xs, ys, k)[i]).len()
                == len + k,
    decreases k,
{
    if k == 0 {
    } else {
        lemma_product_no_duplicates(xs, ys, len);
        lemma_extend_all_no_duplicates(product(xs, ys), ys, (k - 1) as nat, (len + 1) as nat);
    }
}

/// Totality of the universe: over an alphabet of distinct one-character
/// texts, the universe of length `n` has exactly `|alphabet| ^ n` distinct
/// members, and its members are exactly the strings of length `n` whose
/// characters all belong to the alphabet.
pub proof fn lemma_universe_totality(ys: Seq<Seq<char>>, n: nat)
    requires
        n >= 1,
        ys.no_duplicates(),
        forall|i: int| 0 <= i < ys.len() ==> (#[trigger] ys[i]).len() == 1,
    ensures
        universe(ys, n).len() == pow(ys.len() as int, n),
        universe(ys, n).no_duplicates(),
        forall|s: Seq<char>|
            #[trigger] universe(ys, n).contains(s) <==> (s.len() == n && over_alphabet(s, ys)),
{
    lemma_extend_all_len(ys, ys, (n - 1) as nat);
    vstd::arithmetic::power::lemma_pow1(ys.len() as int);
    vstd::arithmetic::power::lemma_pow_adds(ys.len() as int, 1, (n - 1) as nat);
    assert(ys.len() * pow(ys.len() as int, (n - 1) as nat) == pow(ys.len() as int, 1) * pow(
        ys.len() as int,
        (n - 1) as nat,
    ));
    lemma_extend_all_no_duplicates(ys, ys, (n - 1) as nat, 1);
    assert forall|s: Seq<char>|
        #[trigger] universe(ys, n).contains(s) implies (s.len() == n && over_alphabet(s, ys)) by {
        lemma_extend_all_membership(ys, ys, (n - 1) as nat, s);
        let (x, t) = choose|x: Seq<char>, t: Seq<char>|
            ys.contains(x) && s == #[trigger] (x + t) && t.len() == n - 1 && over_alphabet(t, ys);
        let xi = choose|xi: int| 0 <= xi < ys.len() && ys[xi] == x;
        assert(x.len() == 1);
        assert forall|m: int| 0 <= m < s.len() implies ys.contains(seq![#[trigger] s[m]]) by {
            if m == 0 {
                assert(s[0] == x[0]);
                assert(seq![x[0]] =~= x);
            } else {
                assert(s[m] == t[m - 1]);
            }
        }
    }
    assert forall|s: Seq<char>|
        (s.len() == n && over_alphabet(s, ys)) implies #[trigger] universe(ys, n).contains(s) by {
        lemma_extend_all_membership(ys, ys, (n - 1) as nat, s);
        let x = seq![s[0]];
        let t = s.drop_first();
        assert(ys.contains(x));
        assert(s =~= x + t);
        assert(over_alphabet(t, ys)) by {
            assert forall|m: int| 0 <= m < t.len() implies ys.contains(seq![#[trigger] t[m]]) by {
                assert(t[m] == s[m + 1]);
            }
        }
    }
}

} // verus!
