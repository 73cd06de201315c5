//! The probability model: a named mapping from n-grams to exact
//! probabilities, built from a count model by the n-gram chain rule, and
//! persisted as a flat tab-separated text file.

use vstd::prelude::*;
use vstd::string::StrSliceExecFns;
use crate::models::count_model::CountModel;
use crate::models::errors::ProbabilityModelError;
use crate::models::Ratio;

verus! {

/// One n-gram universe key's probability entry.
pub type ProbEntry = (Seq<char>, Ratio);

/// A named mapping from n-grams to exact probabilities.
pub struct ProbabilityModel {
    pub model: Vec<(String, Ratio)>,
    pub name: String,
}

impl ProbabilityModel {
    /// The entries of the model, in insertion order.
    pub open spec fn entries(&self) -> Seq<ProbEntry> {
        self.model@.map_values(|e: (String, Ratio)| (e.0@, e.1))
    }

    /// The n-grams of the model, in insertion order.
    pub open spec fn keys(&self) -> Seq<Seq<char>> {
        self.entries().map_values(|e: ProbEntry| e.0)
    }

    /// Whether `key` has an entry.
    pub open spec fn has_key(&self, key: Seq<char>) -> bool {
        self.keys().contains(key)
    }

    /// The probability recorded for `key`.
    pub open spec fn prob_of(&self, key: Seq<char>) -> Ratio {
        let i = choose|i: int| 0 <= i < self.keys().len() && self.keys()[i] == key;
        self.entries()[i].1
    }

    /// Well-formedness: distinct keys.
    pub open spec fn wf(&self) -> bool {
        self.keys().no_duplicates()
    }

    /// An empty model with the given name.
    pub fn from_name(name: &str) -> (r: Result<ProbabilityModel, ProbabilityModelError>)
        ensures
            r is Ok,
            r->Ok_0.wf(),
            r->Ok_0.name@ == name@,
            r->Ok_0.entries() == Seq::<ProbEntry>::empty(),
    {
        let r = ProbabilityModel { model: Vec::new(), name: String::from_str(name) };
        proof {
            assert(r.entries() =~= Seq::<ProbEntry>::empty());
        }
        Ok(r)
    }

    /// Record `ratio` for `key`: an existing entry is overwritten in place,
    /// a new key is appended.
    fn insert(&mut self, key: String, ratio: Ratio)
        requires
            old(self).wf(),
        ensures
            final(self).wf(),
            final(self).name@ == old(self).name@,
            if old(self).has_key(key@) {
                exists|i: int|
                    0 <= i < old(self).keys().len() && old(self).keys()[i] == key@ && final(self).entries() == old(self).entries().update(i, (key@, ratio))
            } else {
                final(self).entries() == old(self).entries().push((key@, ratio))
            },
            final(self).has_key(key@),
            final(self).prob_of(key@) == ratio,
            forall|other: Seq<char>|
                other != key@ ==> ((#[trigger] final(self).has_key(other)) <==> old(self).has_key(
                    other,
                )) && (old(self).has_key(other) ==> final(self).prob_of(other) == old(self).prob_of(other)),
    {
        let ghost oldentries = self.entries();
        let mut i: usize = 0;
        let mut found: bool = false;
        let mut found_at: usize = 0;
        while i < self.model.len() && !found
            invariant
                i <= self.model@.len(),
                self == old(self),
                old(self).wf(),
                !found ==> forall|k: int| 0 <= k < i ==> (#[trigger] self.model@[k]).0@ != key@,
                found ==> found_at < self.model@.len() && self.model@[found_at as int].0@ == key@
                    && found_at == i - 1,
            decreases self.model@.len() - i,
        {
            if self.model[i].0 == key {
                found = true;
                found_at = i;
            }
            i = i + 1;
        }
        if found {
            let i0 = found_at;
            proof {
                assert(self.keys()[i0 as int] == self.model@[i0 as int].0@);
                assert(self.keys().contains(key@));
            }
            self.model.set(i0, (key, ratio));
            proof {
                let ne = self.entries();
                let goal = oldentries.update(i0 as int, (key@, ratio));
                assert forall|k: int| 0 <= k < ne.len() implies ne[k] == goal[k] by {
                    assert(ne[k] == (self.model@[k].0@, self.model@[k].1));
                    if k != i0 {
                        assert(oldentries[k] == (old(self).model@[k].0@, old(self).model@[k].1));
                    }
                }
                assert(ne =~= goal);
                lemma_keys_of_update(oldentries, i0 as int, key@, ratio);
                assert(final(self).keys() =~= old(self).keys());
                let c = choose|c: int|
                    0 <= c < self.keys().len() && self.keys()[c] == key@;
                assert(c == i0) by {
                    if c != i0 {
                        assert(old(self).keys()[c] == key@);
                        assert(old(self).keys()[i0 as int] == key@);
                        assert(false);
                    }
                }
                assert forall|other: Seq<char>| other != key@ implies ((#[trigger] final(self).has_key(other)) <==> old(self).has_key(other)) && (old(self).has_key(other)
                    ==> final(self).prob_of(other) == old(self).prob_of(other)) by {
                    if old(self).has_key(other) {
                        let t = choose|t: int|
                            0 <= t < old(self).keys().len() && old(self).keys()[t] == other;
                        assert(self.keys()[t] == other);
                        let t2 = choose|t2: int|
                            0 <= t2 < self.keys().len() && self.keys()[t2] == other;
                        assert(t2 == t) by {
                            if t2 != t {
                                assert(old(self).keys()[t2] == other);
                                assert(false);
                            }
                        }
                        assert(t != i0);
                        assert(self.entries()[t].1 == oldentries[t].1);
                    }
                }
            }
        } else {
            proof {
                if old(self).keys().contains(key@) {
                    let c = choose|c: int|
                        0 <= c < old(self).keys().len() && old(self).keys()[c] == key@;
                    assert(old(self).keys()[c] == old(self).model@[c].0@);
                    assert(false);
                }
            }
            self.model.push((key, ratio));
            proof {
                let ne = self.entries();
                let goal = oldentries.push((key@, ratio));
                assert forall|k: int| 0 <= k < ne.len() implies ne[k] == goal[k] by {
                    assert(ne[k] == (self.model@[k].0@, self.model@[k].1));
                    if k < oldentries.len() {
                        assert(oldentries[k] == (old(self).model@[k].0@, old(self).model@[k].1));
                    }
                }
                assert(ne =~= goal);
                assert forall|k: int| 0 <= k < ne.len() implies final(self).keys()[k] == (
                if k < oldentries.len() {
                    old(self).keys()[k]
                } else {
                    key@
                }) by {
                    assert(final(self).keys()[k] == ne[k].0);
                    if k < oldentries.len() {
                        assert(old(self).keys()[k] == oldentries[k].0);
                    }
                }
                assert(final(self).keys() =~= old(self).keys().push(key@));
                let c = choose|c: int|
                    0 <= c < self.keys().len() && self.keys()[c] == key@;
                assert(self.keys()[self.keys().len() - 1] == key@);
                assert(c == self.keys().len() - 1) by {
                    if c < self.keys().len() - 1 {
                        assert(old(self).keys()[c] == key@);
                        assert(old(self).keys().contains(key@));
                        assert(false);
                    }
                }
                assert forall|other: Seq<char>| other != key@ implies ((#[trigger] final(self).has_key(other)) <==> old(self).has_key(other)) && (old(self).has_key(other)
                    ==> final(self).prob_of(other) == old(self).prob_of(other)) by {
                    if final(self).has_key(other) {
                        let t = choose|t: int|
                            0 <= t < self.keys().len() && self.keys()[t] == other;
                        assert(t < old(self).keys().len());
                        assert(old(self).keys()[t] == other);
                    }
                    if old(self).has_key(other) {
                        let t = choose|t: int|
                            0 <= t < old(self).keys().len() && old(self).keys()[t] == other;
                        assert(self.keys()[t] == other);
                        let t2 = choose|t2: int|
                            0 <= t2 < self.keys().len() && self.keys()[t2] == other;
                        assert(t2 < old(self).keys().len() || self.keys()[t2] == key@);
                        assert(t2 == t) by {
                            if t2 != t && t2 < old(self).keys().len() {
                                assert(false);
                            }
                        }
                        assert(self.entries()[t].1 == oldentries[t].1);
                    }
                }
            }
        }
    }

    /// The probability recorded for `ngram`, or `None` when the n-gram has
    /// no entry.
    pub fn get(&self, ngram: &str) -> (r: Option<Ratio>)
        requires
            self.wf(),
        ensures
            match r {
                Some(p) => self.has_key(ngram@) && p == self.prob_of(ngram@),
                None => !self.has_key(ngram@),
            },
    {
        let key = String::from_str(ngram);
        let mut i: usize = 0;
        while i < self.model.len()
            invariant
                i <= self.model@.len(),
                key@ == ngram@,
                self.wf(),
                forall|k: int| 0 <= k < i ==> (#[trigger] self.model@[k]).0@ != ngram@,
            decreases self.model@.len() - i,
        {
            if self.model[i].0 == key {
                proof {
                    assert(self.keys()[i as int] == self.model@[i as int].0@);
                    assert(self.keys().contains(ngram@));
                    let c = choose|c: int|
                        0 <= c < self.keys().len() && self.keys()[c] == ngram@;
                    if c != i {
                        assert(false);
                    }
                    assert(self.entries()[i as int].1 == self.model@[i as int].1);
                }
                return Some(self.model[i].1);
            }
            i = i + 1;
        }
        proof {
            if self.keys().contains(ngram@) {
                let c = choose|c: int| 0 <= c < self.keys().len() && self.keys()[c] == ngram@;
                assert(self.keys()[c] == self.model@[c].0@);
                assert(false);
            }
        }
        None
    }
}

/// Updating an entry's value keys the same key list when the key is kept.
proof fn lemma_keys_of_update(es: Seq<ProbEntry>, i: int, key: Seq<char>, ratio: Ratio)
    requires
        0 <= i < es.len(),
        es[i].0 == key,
    ensures
        es.update(i, (key, ratio)).map_values(|e: ProbEntry| e.0) =~= es.map_values(
            |e: ProbEntry| e.0,
        ),
{
    let a = es.update(i, (key, ratio)).map_values(|e: ProbEntry| e.0);
    let b = es.map_values(|e: ProbEntry| e.0);
    assert forall|k: int| 0 <= k < a.len() implies a[k] == b[k] by {
        assert(a[k] == es.update(i, (key, ratio))[k].0);
        assert(b[k] == es[k].0);
    }
}

} // verus!

verus! {

/// The (n-1)-prefix of an n-gram.
pub open spec fn prefix_of(s: Seq<char>) -> Seq<char> {
    s.subrange(0, s.len() - 1)
}

/// The chain rule is computable over a count model: every n-gram's prefix is
/// in the next shorter model, and the cross-multiplied numerators and
/// denominators stay representable.
pub open spec fn chain_ok(cm: CountModel) -> bool {
    forall|n: int|
        #![trigger cm.model_of_len(n)]
        2 <= n <= cm.max_len() ==> chain_ok_len(cm, n)
}

/// The chain rule is computable for the n-grams of length `n`.
pub open spec fn chain_ok_len(cm: CountModel, n: int) -> bool {
    let pm = cm.model_of_len(n - 1);
    let m = cm.model_of_len(n);
    forall|k: int|
        #![trigger m.keys()[k]]
        0 <= k < m.keys().len() ==> {
            &&& pm.has_key(prefix_of(m.keys()[k]))
            &&& m.nums()[k] * pm.denom() <= u128::MAX
            &&& m.denom() * pm.num_of(prefix_of(m.keys()[k])) <= u128::MAX
        }
}

/// The conditional probability of the `k`-th n-gram of length `n`: its
/// count divided by the count of its (n-1)-prefix, as an exact fraction.
pub open spec fn chain_prob(cm: CountModel, n: int, k: int) -> Ratio {
    let pm = cm.model_of_len(n - 1);
    let m = cm.model_of_len(n);
    Ratio {
        num: (m.nums()[k] * pm.denom()) as u128,
        den: (m.denom() * pm.num_of(prefix_of(m.keys()[k]))) as u128,
    }
}

/// No count model of a length in `lo..hi` has `key` in its universe.
#[verifier::opaque]
pub open spec fn untouched_between(cm: CountModel, lo: int, hi: int, key: Seq<char>) -> bool {
    forall|m: int| lo <= m < hi ==> !(#[trigger] cm.model_of_len(m)).has_key(key)
}

/// A key untouched over a range is untouched over any subrange.
pub proof fn lemma_untouched_mono(cm: CountModel, lo: int, hi1: int, hi2: int, key: Seq<char>)
    requires
        hi1 <= hi2,
        untouched_between(cm, lo, hi2, key),
    ensures
        untouched_between(cm, lo, hi1, key),
{
    reveal(untouched_between);
}

/// A key missing from each model of the range is untouched over it: this
/// is how a caller discharges the preservation condition of
/// `add_ngram_probabilities` for keys of its own.
pub proof fn lemma_untouched_intro(cm: CountModel, lo: int, hi: int, key: Seq<char>)
    requires
        forall|m: int| lo <= m < hi ==> !(#[trigger] cm.model_of_len(m)).has_key(key),
    ensures
        untouched_between(cm, lo, hi, key),
{
    reveal(untouched_between);
}

/// A key untouched over a range is missing from each model in the range.
pub proof fn lemma_untouched_at(cm: CountModel, lo: int, hi: int, key: Seq<char>, m: int)
    requires
        untouched_between(cm, lo, hi, key),
        lo <= m < hi,
    ensures
        !cm.model_of_len(m).has_key(key),
{
    reveal(untouched_between);
}

impl ProbabilityModel {
    /// Record the probability of every unigram: its count divided by the
    /// total count of all unigrams. Fails exactly when the count model has
    /// no unigram model.
    pub fn add_unigram_probabilities(&mut self, count_model: &CountModel) -> (r: Result<
        (),
        ProbabilityModelError,
    >)
        requires
            old(self).wf(),
            count_model.wf(),
        ensures
            final(self).wf(),
            final(self).name@ == old(self).name@,
            r is Ok <==> count_model.max_len() >= 1,
            r is Err ==> *final(self) == *old(self),
            r is Ok ==> forall|k: int|
                0 <= k < count_model.model_of_len(1).keys().len() ==> final(self).has_key(
                    #[trigger] count_model.model_of_len(1).keys()[k],
                ) && final(self).prob_of(count_model.model_of_len(1).keys()[k]).num
                    == count_model.model_of_len(1).nums()[k] && final(self).prob_of(
                    count_model.model_of_len(1).keys()[k],
                ).den == count_model.model_of_len(1).total_num(),
            r is Ok ==> forall|key: Seq<char>|
                #![trigger old(self).has_key(key)]
                !count_model.model_of_len(1).has_key(key) ==> ((final(self).has_key(key)) <==> old(self).has_key(key)) && (old(self).has_key(key) ==> final(self).prob_of(key) == old(self).prob_of(key)),
    {
        let uni = match count_model.get_ngram_model(1) {
            Some(m) => m,
            None => {
                return Err(ProbabilityModelError::new("no unigram model found"));
            },
        };
        let total = uni.get_total_ngram_count();
        let size = uni.get_vocabulary_size();
        let mut k: usize = 0;
        while k < size
            invariant
                k <= size,
                size == uni.keys().len(),
                uni.wf(),
                count_model.wf(),
                count_model.max_len() >= 1,
                *uni == count_model.model_of_len(1),
                total.num == uni.total_num(),
                old(self).wf(),
                self.wf(),
                self.name@ == old(self).name@,
                forall|t: int|
                    0 <= t < k ==> self.has_key(#[trigger] uni.keys()[t]) && self.prob_of(
                        uni.keys()[t],
                    ).num == uni.nums()[t] && self.prob_of(uni.keys()[t]).den == uni.total_num(),
                forall|key: Seq<char>|
                    #![trigger old(self).has_key(key)]
                    !uni.keys().subrange(0, k as int).contains(key) ==> ((self.has_key(key)) <==> old(self).has_key(key)) && (old(self).has_key(key) ==> self.prob_of(key) == old(self).prob_of(key)),
            decreases size - k,
        {
            let key = uni.key_at(k).clone();
            let num = uni.num_at(k);
            let ghost prev_self = *self;
            self.insert(key, Ratio { num, den: total.num });
            k = k + 1;
            proof {
                let kk = k - 1;
                let w = uni.keys()[kk];
                assert(self.has_key(w));
                assert(self.prob_of(w).num == uni.nums()[kk]);
                assert(self.prob_of(w).den == uni.total_num());
                assert forall|t: int| 0 <= t < k implies self.has_key(#[trigger] uni.keys()[t])
                    && self.prob_of(uni.keys()[t]).num == uni.nums()[t] && self.prob_of(
                    uni.keys()[t],
                ).den == uni.total_num() by {
                    if t < kk {
                        assert(uni.keys()[t] != w);
                        assert(self.has_key(uni.keys()[t]));
                        assert(self.prob_of(uni.keys()[t]).num == uni.nums()[t]);
                        assert(self.prob_of(uni.keys()[t]).den == uni.total_num());
                    } else {
                        assert(self.has_key(uni.keys()[t]));
                        assert(self.prob_of(uni.keys()[t]).num == uni.nums()[t]);
                        assert(self.prob_of(uni.keys()[t]).den == uni.total_num());
                    }
                }
                assert forall|key: Seq<char>|
                    #![trigger old(self).has_key(key)]
                    !uni.keys().subrange(0, k as int).contains(key) implies ((self.has_key(key))
                        <==> old(self).has_key(key)) && (old(self).has_key(key) ==> self.prob_of(
                        key,
                    ) == old(self).prob_of(key)) by {
                    assert(uni.keys().subrange(0, k as int)[kk] == w);
                    assert(key != w);
                    assert(!uni.keys().subrange(0, kk).contains(key)) by {
                        if uni.keys().subrange(0, kk).contains(key) {
                            let t = choose|t: int|
                                0 <= t < kk && uni.keys().subrange(0, kk)[t] == key;
                            assert(uni.keys().subrange(0, k as int)[t] == key);
                        }
                    }
                    assert(prev_self.has_key(key) <==> old(self).has_key(key));
                    assert(old(self).has_key(key) ==> prev_self.prob_of(key) == old(self).prob_of(
                        key,
                    ));
                    assert(self.has_key(key) <==> prev_self.has_key(key));
                    assert(prev_self.has_key(key) ==> self.prob_of(key) == prev_self.prob_of(key));
                }
            }
        }
        proof {
            let u2 = count_model.model_of_len(1);
            assert forall|k2: int| 0 <= k2 < u2.keys().len() implies self.has_key(
                #[trigger] u2.keys()[k2],
            ) && self.prob_of(u2.keys()[k2]).num == u2.nums()[k2] && self.prob_of(
                u2.keys()[k2],
            ).den == u2.total_num() by {
                assert(u2.keys()[k2] == uni.keys()[k2]);
                assert(self.has_key(uni.keys()[k2]));
                assert(self.prob_of(uni.keys()[k2]).num == uni.nums()[k2]);
                assert(self.prob_of(uni.keys()[k2]).den == uni.total_num());
            }
            assert forall|key: Seq<char>|
                #![trigger old(self).has_key(key)]
                !count_model.model_of_len(1).has_key(key) implies ((self.has_key(key)) <==> old(self).has_key(key)) && (old(self).has_key(key) ==> self.prob_of(key) == old(self).prob_of(key)) by {
                assert(!uni.has_key(key));
                assert(!uni.keys().subrange(0, size as int).contains(key)) by {
                    if uni.keys().subrange(0, size as int).contains(key) {
                        let t = choose|t: int|
                            0 <= t < size && uni.keys().subrange(0, size as int)[t] == key;
                        assert(uni.keys()[t] == key);
                        assert(uni.keys().contains(key));
                    }
                }
            }
        }
        Ok(())
    }

    /// Record the conditional probability of every n-gram of each length
    /// `2..=max`: its count divided by the count of its (n-1)-prefix, taken
    /// from the next shorter count model. Fails exactly when some prefix is
    /// missing from its model or some cross product is not representable.
    pub fn add_ngram_probabilities(&mut self, count_model: &CountModel) -> (r: Result<
        (),
        ProbabilityModelError,
    >)
        requires
            old(self).wf(),
            count_model.wf(),
            count_model.keys_sized(),
        ensures
            final(self).wf(),
            final(self).name@ == old(self).name@,
            r is Ok <==> chain_ok(*count_model),
            r is Ok ==> ({
                &&& forall|n: int, k: int|
                    #![trigger count_model.model_of_len(n).keys()[k]]
                    2 <= n <= count_model.max_len() && 0 <= k < count_model.model_of_len(
                        n,
                    ).keys().len() ==> final(self).has_key(count_model.model_of_len(n).keys()[k])
                        && final(self).prob_of(count_model.model_of_len(n).keys()[k])
                        == chain_prob(*count_model, n, k)
                &&& forall|key: Seq<char>|
                    #![trigger old(self).has_key(key)]
                    untouched_between(*count_model, 2, count_model.max_len() + 1, key) ==> ((final(self).has_key(key)) <==> old(self).has_key(key)) && (old(self).has_key(key)
                        ==> final(self).prob_of(key) == old(self).prob_of(key))
            }),
    {
        let ghost cm = *count_model;
        let max = count_model.get_max_ngram_length();
        if max < 2 {
            proof {
                assert(chain_ok(cm));
            }
            return Ok(());
        }
        proof {
            assert forall|key: Seq<char>| untouched_between(cm, 2, 2, key) by {
                reveal(untouched_between);
            }
        }
        let mut idx: usize = 0;
        while idx < max - 1
            invariant
                idx <= max - 1,
                max >= 2,
                max == cm.max_len(),
                cm == *count_model,
                cm.wf(),
                cm.keys_sized(),
                old(self).wf(),
                self.wf(),
                self.name@ == old(self).name@,
                forall|m: int|
                    #![trigger cm.model_of_len(m)]
                    2 <= m < idx + 2 ==> chain_ok_len(cm, m),
                forall|m: int, t: int|
                    #![trigger cm.model_of_len(m).keys()[t]]
                    2 <= m < idx + 2 && 0 <= t < cm.model_of_len(m).keys().len() ==> self.has_key(
                        cm.model_of_len(m).keys()[t],
                    ) && self.prob_of(cm.model_of_len(m).keys()[t]) == chain_prob(cm, m, t),
                forall|key: Seq<char>|
                    #![trigger old(self).has_key(key)]
                    untouched_between(cm, 2, idx + 2, key) ==> ((self.has_key(key)) <==> old(self).has_key(key)) && (old(self).has_key(key) ==> self.prob_of(key) == old(self).prob_of(key)),
            decreases max - 1 - idx,
        {
            let n = idx + 2;
            let pm = match count_model.get_ngram_model(n - 1) {
                Some(m) => m,
                None => {
                    proof {
                        assert(false);
                    }
                    return Err(ProbabilityModelError::new("no prefix model"));
                },
            };
            let m = match count_model.get_ngram_model(n) {
                Some(m) => m,
                None => {
                    proof {
                        assert(false);
                    }
                    return Err(ProbabilityModelError::new("no ngram model"));
                },
            };
            let size = m.get_vocabulary_size();
            let mut k: usize = 0;
            while k < size
                invariant
                    k <= size,
                    2 <= n <= max,
                    max == cm.max_len(),
                    cm == *count_model,
                    cm.wf(),
                    cm.keys_sized(),
                    *pm == cm.model_of_len(n - 1),
                    *m == cm.model_of_len(n as int),
                    size == m.keys().len(),
                    old(self).wf(),
                    self.wf(),
                    self.name@ == old(self).name@,
                    forall|mm: int|
                        #![trigger cm.model_of_len(mm)]
                        2 <= mm < n ==> chain_ok_len(cm, mm),
                    forall|t: int|
                        #![trigger m.keys()[t]]
                        0 <= t < k ==> {
                            &&& pm.has_key(prefix_of(m.keys()[t]))
                            &&& m.nums()[t] * pm.denom() <= u128::MAX
                            &&& m.denom() * pm.num_of(prefix_of(m.keys()[t])) <= u128::MAX
                        },
                    forall|mm: int, t: int|
                        #![trigger cm.model_of_len(mm).keys()[t]]
                        2 <= mm < n && 0 <= t < cm.model_of_len(mm).keys().len() ==> self.has_key(
                            cm.model_of_len(mm).keys()[t],
                        ) && self.prob_of(cm.model_of_len(mm).keys()[t]) == chain_prob(cm, mm, t),
                    forall|t: int|
                        #![trigger m.keys()[t]]
                        0 <= t < k ==> self.has_key(m.keys()[t]) && self.prob_of(m.keys()[t])
                            == chain_prob(cm, n as int, t),
                    forall|key: Seq<char>|
                        #![trigger old(self).has_key(key)]
                        (untouched_between(cm, 2, n as int, key) && !m.keys().subrange(
                            0,
                            k as int,
                        ).contains(key)) ==> ((self.has_key(key)) <==> old(self).has_key(key)) && (
                        old(self).has_key(key) ==> self.prob_of(key) == old(self).prob_of(key)),
                decreases size - k,
            {
                let key: &String = m.key_at(k);
                let key_len = key.as_str().unicode_len();
                proof {
                    assert(m.keys()[k as int].len() == n);
                }
                let prefix_str: &str = key.as_str().substring_char(0, key_len - 1);
                proof {
                    assert(prefix_str@ == prefix_of(m.keys()[k as int]));
                }
                let pcount = match pm.get_ngram_count(prefix_str) {
                    Some(c) => c,
                    None => {
                        proof {
                            lemma_chain_witness(cm, n as int, k as int);
                        }
                        return Err(ProbabilityModelError::new("ngram model doesn't know prefix"));
                    },
                };
                let num = match m.num_at(k).checked_mul(pcount.den) {
                    Some(x) => x,
                    None => {
                        proof {
                            lemma_chain_witness(cm, n as int, k as int);
                        }
                        return Err(ProbabilityModelError::new(
                            "probability numerator exceeds the representable range",
                        ));
                    },
                };
                let den = match m.get_den().checked_mul(pcount.num) {
                    Some(x) => x,
                    None => {
                        proof {
                            lemma_chain_witness(cm, n as int, k as int);
                        }
                        return Err(ProbabilityModelError::new(
                            "probability denominator exceeds the representable range",
                        ));
                    },
                };
                let key_owned = key.clone();
                let ghost w = m.keys()[k as int];
                let ghost prev_self = *self;
                self.insert(key_owned, Ratio { num, den });
                k = k + 1;
                proof {
                    let kk = k - 1;
                    assert(pm.has_key(prefix_of(w)));
                    assert(m.nums()[kk] * pm.denom() <= u128::MAX);
                    assert(m.denom() * pm.num_of(prefix_of(w)) <= u128::MAX);
                    assert forall|t: int| 0 <= t < k implies {
                        &&& pm.has_key(prefix_of(#[trigger] m.keys()[t]))
                        &&& m.nums()[t] * pm.denom() <= u128::MAX
                        &&& m.denom() * pm.num_of(prefix_of(m.keys()[t])) <= u128::MAX
                    } by {
                        if t < kk {
                            assert(pm.has_key(prefix_of(m.keys()[t])));
                            assert(m.nums()[t] * pm.denom() <= u128::MAX);
                            assert(m.denom() * pm.num_of(prefix_of(m.keys()[t])) <= u128::MAX);
                        }
                    }
                    assert(self.prob_of(w) == chain_prob(cm, n as int, kk));
                    assert forall|t: int| 0 <= t < k implies #[trigger] self.has_key(m.keys()[t])
                        && self.prob_of(m.keys()[t]) == chain_prob(cm, n as int, t) by {
                        if t < kk {
                            assert(m.keys()[t] != w);
                            assert(self.has_key(m.keys()[t]));
                            assert(self.prob_of(m.keys()[t]) == chain_prob(cm, n as int, t));
                        } else {
                            assert(self.has_key(m.keys()[t]));
                            assert(self.prob_of(m.keys()[t]) == chain_prob(cm, n as int, t));
                        }
                    }
                    assert forall|mm: int, t: int|
                        2 <= mm < n && 0 <= t < cm.model_of_len(mm).keys().len() implies self
                        .has_key(#[trigger] cm.model_of_len(mm).keys()[t]) && self.prob_of(
                        cm.model_of_len(mm).keys()[t],
                    ) == chain_prob(cm, mm, t) by {
                        assert(cm.model_of_len(mm).keys()[t].len() == mm);
                        assert(w.len() == n);
                        assert(cm.model_of_len(mm).keys()[t] != w);
                        assert(self.has_key(cm.model_of_len(mm).keys()[t]));
                        assert(self.prob_of(cm.model_of_len(mm).keys()[t]) == chain_prob(
                            cm,
                            mm,
                            t,
                        ));
                    }
                    assert forall|key2: Seq<char>|
                        #![trigger old(self).has_key(key2)]
                        (untouched_between(cm, 2, n as int, key2) && !m.keys().subrange(
                            0,
                            k as int,
                        ).contains(key2)) implies ((self.has_key(key2)) <==> old(self).has_key(
                            key2,
                        )) && (old(self).has_key(key2) ==> self.prob_of(key2) == old(self).prob_of(key2)) by {
                        assert(m.keys().subrange(0, k as int)[kk] == w);
                        assert(key2 != w);
                        assert(!m.keys().subrange(0, kk).contains(key2)) by {
                            if m.keys().subrange(0, kk).contains(key2) {
                                let t = choose|t: int|
                                    0 <= t < kk && m.keys().subrange(0, kk)[t] == key2;
                                assert(m.keys().subrange(0, k as int)[t] == key2);
                            }
                        }
                        assert(prev_self.has_key(key2) <==> old(self).has_key(key2));
                        assert(old(self).has_key(key2) ==> prev_self.prob_of(key2) == old(self).prob_of(key2));
                        assert(self.has_key(key2) <==> prev_self.has_key(key2));
                        assert(prev_self.has_key(key2) ==> self.prob_of(key2) == prev_self.prob_of(
                            key2,
                        ));
                    }
                }
            }
            proof {
                let nn = n as int;
                assert(chain_ok_len(cm, nn)) by {
                    let mm = cm.model_of_len(nn);
                    let pmm = cm.model_of_len(nn - 1);
                    assert forall|t: int| 0 <= t < mm.keys().len() implies {
                        &&& pmm.has_key(prefix_of(#[trigger] mm.keys()[t]))
                        &&& mm.nums()[t] * pmm.denom() <= u128::MAX
                        &&& mm.denom() * pmm.num_of(prefix_of(mm.keys()[t])) <= u128::MAX
                    } by {
                        assert(m.keys().subrange(0, size as int) =~= m.keys());
                        assert(m.keys()[t] == mm.keys()[t]);
                    }
                }
                assert forall|key: Seq<char>|
                    #![trigger old(self).has_key(key)]
                    untouched_between(cm, 2, nn + 1, key) implies ((self.has_key(key)) <==> old(self).has_key(key)) && (old(self).has_key(key) ==> self.prob_of(key) == old(self).prob_of(key)) by {
                    lemma_untouched_mono(cm, 2, nn, nn + 1, key);
                    lemma_untouched_at(cm, 2, nn + 1, key, nn);
                    assert(!cm.model_of_len(nn).has_key(key));
                    assert(!m.keys().contains(key));
                    assert(!m.keys().subrange(0, size as int).contains(key)) by {
                        if m.keys().subrange(0, size as int).contains(key) {
                            let t = choose|t: int|
                                0 <= t < size && m.keys().subrange(0, size as int)[t] == key;
                            assert(m.keys()[t] == key);
                        }
                    }
                }
            }
            idx = idx + 1;
        }
        Ok(())
    }
}

/// If the chain rule fails for one n-gram, it fails for the count model.
proof fn lemma_chain_witness(cm: CountModel, n: int, k: int)
    requires
        2 <= n <= cm.max_len(),
        0 <= k < cm.model_of_len(n).keys().len(),
        !{
            let pm = cm.model_of_len(n - 1);
            let m = cm.model_of_len(n);
            &&& pm.has_key(prefix_of(m.keys()[k]))
            &&& m.nums()[k] * pm.denom() <= u128::MAX
            &&& m.denom() * pm.num_of(prefix_of(m.keys()[k])) <= u128::MAX
        },
    ensures
        !chain_ok(cm),
{
    if chain_ok(cm) {
        assert(chain_ok_len(cm, n)) by {
            assert(cm.model_of_len(n) == cm.model_of_len(n));
        }
        assert(cm.model_of_len(n).keys()[k] == cm.model_of_len(n).keys()[k]);
    }
}

} // verus!

verus! {

/// Index of the first occurrence of `c` in `s`, or `s.len()` when `c` does
/// not occur.
pub open spec fn find_char(s: Seq<char>, c: char) -> nat
    decreases s.len(),
{
    if s.len() == 0 {
        0
    } else if s[0] == c {
        0
    } else {
        1 + find_char(s.drop_first(), c)
    }
}

/// The defining properties of `find_char`.
pub proof fn lemma_find_char(s: Seq<char>, c: char)
    ensures
        find_char(s, c) <= s.len(),
        find_char(s, c) < s.len() ==> s[find_char(s, c) as int] == c,
        forall|k: int| 0 <= k < find_char(s, c) ==> s[k] != c,
        find_char(s, c) == s.len() ==> !s.contains(c),
    decreases s.len(),
{
    if s.len() == 0 {
    } else if s[0] == c {
    } else {
        lemma_find_char(s.drop_first(), c);
        let r = s.drop_first();
        assert forall|k: int| 0 <= k < find_char(s, c) implies s[k] != c by {
            if k > 0 {
                assert(r[k - 1] == s[k]);
            }
        }
        if find_char(s, c) == s.len() {
            if s.contains(c) {
                let k = choose|k: int| 0 <= k < s.len() && s[k] == c;
                assert(s[k] != c);
            }
        }
    }
}

/// A position holding `c`, before which `c` does not occur, is where
/// `find_char` points.
pub proof fn lemma_find_char_is_first(s: Seq<char>, c: char, j: int)
    requires
        0 <= j < s.len(),
        s[j] == c,
        forall|k: int| 0 <= k < j ==> s[k] != c,
    ensures
        find_char(s, c) == j,
{
    lemma_find_char(s, c);
    let f = find_char(s, c) as int;
    if f < j {
        assert(s[f] != c);
    } else if f > j {
        assert(s[j] != c);
    }
}

/// If `c` does not occur in `s`, it is not found in `s`.
pub proof fn lemma_find_char_absent(s: Seq<char>, c: char)
    requires
        forall|k: int| 0 <= k < s.len() ==> s[k] != c,
    ensures
        find_char(s, c) == s.len(),
    decreases s.len(),
{
    lemma_find_char(s, c);
    let f = find_char(s, c) as int;
    if f < s.len() {
        assert(s[f] != c);
    }
}

/// One rendered record: the n-gram, a tab, the probability as
/// `numerator/denominator`, and a line break.
pub open spec fn render_entry(e: ProbEntry) -> Seq<char> {
    e.0 + seq!['\t'] + crate::strutil::dec_rep(e.1.num as nat) + seq!['/']
        + crate::strutil::dec_rep(e.1.den as nat) + seq!['\n']
}

/// The rendered model: one record per entry, in order.
pub open spec fn render_model(es: Seq<ProbEntry>) -> Seq<char>
    decreases es.len(),
{
    if es.len() == 0 {
        Seq::empty()
    } else {
        render_entry(es.first()) + render_model(es.drop_first())
    }
}

/// What parsing one record line yields: the n-gram before the first tab and
/// the probability fields split at the first slash, provided both fields are
/// well-formed numbers.
pub open spec fn parse_line_spec(line: Seq<char>) -> Option<ProbEntry> {
    let t = find_char(line, '\t') as int;
    if t >= line.len() {
        None
    } else {
        let key = line.subrange(0, t);
        let rest = line.subrange(t + 1, line.len() as int);
        match spec_parse_ratio(rest) {
            Some(p) => Some((key, p)),
            None => None,
        }
    }
}

/// What parsing a probability field yields: a `numerator/denominator`
/// fraction, a decimal number `int.frac` read exactly as
/// `digits(int ++ frac) / 10^|frac|`, or a plain whole number over one.
pub open spec fn spec_parse_ratio(f: Seq<char>) -> Option<Ratio> {
    let sl = find_char(f, '/') as int;
    if sl < f.len() {
        let num_s = f.subrange(0, sl);
        let den_s = f.subrange(sl + 1, f.len() as int);
        match (crate::strutil::parse_u128_spec(num_s), crate::strutil::parse_u128_spec(den_s)) {
            (Some(a), Some(b)) => Some(Ratio { num: a, den: b }),
            _ => None,
        }
    } else {
        let dot = find_char(f, '.') as int;
        if dot < f.len() {
            let int_part = f.subrange(0, dot);
            let frac = f.subrange(dot + 1, f.len() as int);
            if int_part.len() >= 1 && frac.len() >= 1 && crate::strutil::all_digits(int_part)
                && crate::strutil::all_digits(frac) && crate::strutil::digits_val(
                int_part + frac,
            ) <= u128::MAX && vstd::arithmetic::power::pow(10, frac.len()) <= u128::MAX {
                Some(
                    Ratio {
                        num: crate::strutil::digits_val(int_part + frac) as u128,
                        den: vstd::arithmetic::power::pow(10, frac.len()) as u128,
                    },
                )
            } else {
                None
            }
        } else {
            match crate::strutil::parse_u128_spec(f) {
                Some(n) => Some(Ratio { num: n, den: 1 }),
                None => None,
            }
        }
    }
}

/// What parsing a rendered model yields: the records of its lines, in
/// order; `None` as soon as one line is ill-formed.
pub open spec fn parse_model_spec(s: Seq<char>) -> Option<Seq<ProbEntry>>
    decreases s.len(),
{
    if s.len() == 0 {
        Some(Seq::empty())
    } else {
        let j = find_char(s, '\n') as int;
        if j >= s.len() {
            match parse_line_spec(s) {
                Some(e) => Some(seq![e]),
                None => None,
            }
        } else {
            let line = s.subrange(0, j);
            let rest = s.subrange(j + 1, s.len() as int);
            match parse_line_spec(line) {
                Some(e) => match parse_model_spec(rest) {
                    Some(es) => Some(seq![e] + es),
                    None => None,
                },
                None => None,
            }
        }
    }
}

/// Rendering distributes over concatenation of entry lists.
pub proof fn lemma_render_concat(a: Seq<ProbEntry>, b: Seq<ProbEntry>)
    ensures
        render_model(a + b) == render_model(a) + render_model(b),
    decreases a.len(),
{
    if a.len() == 0 {
        assert(a + b =~= b);
        assert(render_model(a) =~= Seq::<char>::empty());
        assert(render_model(a) + render_model(b) =~= render_model(b));
    } else {
        assert((a + b).drop_first() =~= a.drop_first() + b);
        assert((a + b).first() == a.first());
        lemma_render_concat(a.drop_first(), b);
        assert(render_entry(a.first()) + (render_model(a.drop_first()) + render_model(b))
            =~= (render_entry(a.first()) + render_model(a.drop_first())) + render_model(b));
    }
}

/// The characters of a rendered record before its final line break: the key
/// must be free of tabs and line breaks for the record to split back.
pub open spec fn serializable_key(key: Seq<char>) -> bool {
    forall|k: int| 0 <= k < key.len() ==> key[k] != '\t' && key[k] != '\n'
}

/// Parsing one rendered record's line yields the entry back.
proof fn lemma_parse_render_line(e: ProbEntry)
    requires
        serializable_key(e.0),
    ensures
        ({
            let line = e.0 + seq!['\t'] + crate::strutil::dec_rep(e.1.num as nat) + seq!['/']
                + crate::strutil::dec_rep(e.1.den as nat);
            parse_line_spec(line) == Some(e)
        }),
{
    let dn = crate::strutil::dec_rep(e.1.num as nat);
    let dd = crate::strutil::dec_rep(e.1.den as nat);
    let line = e.0 + seq!['\t'] + dn + seq!['/'] + dd;
    crate::strutil::lemma_dec_rep_val(e.1.num as nat);
    crate::strutil::lemma_dec_rep_val(e.1.den as nat);
    let kl = e.0.len() as int;
    assert(line[kl] == '\t');
    assert forall|k: int| 0 <= k < kl implies line[k] != '\t' by {
        assert(line[k] == e.0[k]);
    }
    lemma_find_char_is_first(line, '\t', kl);
    assert(line.subrange(0, kl) =~= e.0);
    let rest = line.subrange(kl + 1, line.len() as int);
    assert(rest =~= dn + seq!['/'] + dd);
    let sl = dn.len() as int;
    assert(rest[sl] == '/');
    assert forall|k: int| 0 <= k < sl implies rest[k] != '/' by {
        assert(rest[k] == dn[k]);
        assert(crate::strutil::is_digit(dn[k]));
    }
    lemma_find_char_is_first(rest, '/', sl);
    assert(rest.subrange(0, sl) =~= dn);
    assert(rest.subrange(sl + 1, rest.len() as int) =~= dd);
    assert(crate::strutil::parse_u128_spec(dn) == Some(e.1.num));
    assert(crate::strutil::parse_u128_spec(dd) == Some(e.1.den));
}

/// Round trip: parsing a rendered model yields the entries back, provided
/// every key is free of tabs and line breaks.
pub proof fn lemma_parse_render_model(es: Seq<ProbEntry>)
    requires
        forall|i: int| 0 <= i < es.len() ==> serializable_key((#[trigger] es[i]).0),
    ensures
        parse_model_spec(render_model(es)) == Some(es),
    decreases es.len(),
{
    if es.len() == 0 {
    } else {
        let e = es.first();
        let dn = crate::strutil::dec_rep(e.1.num as nat);
        let dd = crate::strutil::dec_rep(e.1.den as nat);
        let line = e.0 + seq!['\t'] + dn + seq!['/'] + dd;
        let s = render_model(es);
        crate::strutil::lemma_dec_rep_val(e.1.num as nat);
        crate::strutil::lemma_dec_rep_val(e.1.den as nat);
        assert(render_entry(e) =~= line + seq!['\n']);
        assert(s =~= line + seq!['\n'] + render_model(es.drop_first()));
        let j = line.len() as int;
        assert(s[j] == '\n');
        assert forall|k: int| 0 <= k < j implies s[k] != '\n' by {
            assert(s[k] == line[k]);
            if k < e.0.len() {
                assert(line[k] == e.0[k]);
            } else if k == e.0.len() {
                assert(line[k] == '\t');
            } else if k < e.0.len() + 1 + dn.len() {
                assert(line[k] == dn[k - e.0.len() - 1]);
                assert(crate::strutil::is_digit(dn[k - e.0.len() - 1]));
            } else if k == e.0.len() + 1 + dn.len() {
                assert(line[k] == '/');
            } else {
                assert(line[k] == dd[k - e.0.len() - 2 - dn.len()]);
                assert(crate::strutil::is_digit(dd[k - e.0.len() - 2 - dn.len()]));
            }
        }
        lemma_find_char_is_first(s, '\n', j);
        assert(j < s.len());
        assert(s.subrange(0, j) =~= line);
        lemma_parse_render_line(e);
        assert(s.subrange(j + 1, s.len() as int) =~= render_model(es.drop_first()));
        assert forall|i: int| 0 <= i < es.drop_first().len() implies serializable_key(
            (#[trigger] es.drop_first()[i]).0,
        ) by {
            assert(es.drop_first()[i] == es[i + 1]);
        }
        lemma_parse_render_model(es.drop_first());
        assert(seq![e] + es.drop_first() =~= es);
    }
}

impl ProbabilityModel {
    /// The rendered form of the model: one line per entry, each holding the
    /// n-gram, a tab, and the probability as `numerator/denominator`.
    pub fn serialize(&self) -> (r: String)
        ensures
            r@ == render_model(self.entries()),
    {
        let mut acc = String::new();
        let mut i: usize = 0;
        while i < self.model.len()
            invariant
                i <= self.model@.len(),
                acc@ == render_model(self.entries().subrange(0, i as int)),
            decreases self.model@.len() - i,
        {
            let ghost prefix = self.entries().subrange(0, i as int);
            acc.append(self.model[i].0.as_str());
            proof {
                reveal_strlit("\t");
                reveal_strlit("/");
                reveal_strlit("\n");
            }
            acc.append("\t");
            let num_s = crate::strutil::u128_to_string(self.model[i].1.num);
            acc.append(num_s.as_str());
            acc.append("/");
            let den_s = crate::strutil::u128_to_string(self.model[i].1.den);
            acc.append(den_s.as_str());
            acc.append("\n");
            i = i + 1;
            proof {
                let prefix1 = self.entries().subrange(0, i as int);
                let e = self.entries()[i - 1];
                assert(e == (self.model@[i - 1].0@, self.model@[i - 1].1));
                assert(prefix1 =~= prefix.push(e));
                assert(prefix1.drop_last() =~= prefix);
                lemma_render_concat(prefix, seq![e]);
                assert(prefix.push(e) =~= prefix + seq![e]);
                assert(seq![e].drop_first() =~= Seq::<ProbEntry>::empty());
                assert(render_model(Seq::<ProbEntry>::empty()) == Seq::<char>::empty());
                assert(seq![e].first() == e);
                assert(render_model(seq![e]) =~= render_entry(e));
                assert(acc@ =~= render_model(prefix) + render_entry(e));
            }
        }
        proof {
            assert(self.entries().subrange(0, self.model@.len() as int) =~= self.entries());
        }
        acc
    }
}

} // verus!

verus! {

/// Position of the first occurrence of `c` in `v[start..end]`, or `end`
/// when `c` does not occur there.
fn find_char_in(v: &Vec<char>, start: usize, end: usize, c: char) -> (j: usize)
    requires
        start <= end <= v@.len(),
    ensures
        start <= j <= end,
        j - start == find_char(v@.subrange(start as int, end as int), c),
        j < end ==> v@[j as int] == c,
{
    let ghost field = v@.subrange(start as int, end as int);
    let mut i: usize = start;
    while i < end
        invariant
            start <= i <= end <= v@.len(),
            field == v@.subrange(start as int, end as int),
            forall|k: int| start <= k < i ==> v@[k] != c,
        decreases end - i,
    {
        if v[i] == c {
            proof {
                assert(field[i - start] == c);
                assert forall|k: int| 0 <= k < i - start implies field[k] != c by {
                    assert(field[k] == v@[start + k]);
                }
                lemma_find_char_is_first(field, c, i - start);
            }
            return i;
        }
        i = i + 1;
    }
    proof {
        assert forall|k: int| 0 <= k < field.len() implies field[k] != c by {
            assert(field[k] == v@[start + k]);
        }
        lemma_find_char_absent(field, c);
    }
    end
}


/// Parse the probability field `v[start..end]`: a fraction, an exact
/// decimal, or a whole number.
fn parse_ratio_field(v: &Vec<char>, start: usize, end: usize) -> (r: Option<Ratio>)
    requires
        start <= end <= v@.len(),
    ensures
        ({
            let f = v@.subrange(start as int, end as int);
            match r {
                Some(p) => spec_parse_ratio(f) == Some(p),
                None => spec_parse_ratio(f) is None,
            }
        }),
{
    let ghost f = v@.subrange(start as int, end as int);
    let sl = find_char_in(v, start, end, '/');
    proof {
        assert(find_char(f, '/') == sl - start);
    }
    if sl < end {
        let num = match crate::strutil::parse_u128(v, start, sl) {
            Some(x) => x,
            None => {
                proof {
                    assert(f.subrange(0, sl - start) =~= v@.subrange(start as int, sl as int));
                }
                return None;
            },
        };
        let den = match crate::strutil::parse_u128(v, sl + 1, end) {
            Some(x) => x,
            None => {
                proof {
                    assert(f.subrange(0, sl - start) =~= v@.subrange(start as int, sl as int));
                    assert(f.subrange(sl - start + 1, f.len() as int) =~= v@.subrange(
                        sl + 1,
                        end as int,
                    ));
                }
                return None;
            },
        };
        proof {
            assert(f.subrange(0, sl - start) =~= v@.subrange(start as int, sl as int));
            assert(f.subrange(sl - start + 1, f.len() as int) =~= v@.subrange(
                sl + 1,
                end as int,
            ));
        }
        Some(Ratio { num, den })
    } else {
        let dot = find_char_in(v, start, end, '.');
        proof {
            assert(find_char(f, '.') == dot - start);
        }
        if dot < end {
            let ghost int_part = f.subrange(0, dot - start);
            let ghost frac = f.subrange(dot - start + 1, f.len() as int);
            proof {
                assert(int_part =~= v@.subrange(start as int, dot as int));
                assert(frac =~= v@.subrange(dot + 1, end as int));
            }
            let int_val = match crate::strutil::parse_u128(v, start, dot) {
                Some(x) => x,
                None => {
                    proof {
                        if int_part.len() >= 1 && crate::strutil::all_digits(int_part)
                            && crate::strutil::all_digits(frac) {
                            lemma_all_digits_concat(int_part, frac);
                            crate::strutil::lemma_digits_val_prefix(
                                int_part + frac,
                                int_part.len() as int,
                            );
                            assert((int_part + frac).subrange(0, int_part.len() as int)
                                =~= int_part);
                        }
                        assert(spec_parse_ratio(f) is None);
                    }
                    return None;
                },
            };
            let frac_val = match crate::strutil::parse_u128(v, dot + 1, end) {
                Some(x) => x,
                None => {
                    proof {
                        if frac.len() >= 1 && crate::strutil::all_digits(frac)
                            && int_part.len() >= 1 && crate::strutil::all_digits(int_part) {
                            crate::strutil::lemma_digits_concat(int_part, frac);
                            crate::strutil::lemma_digits_val_nonneg(int_part);
                            vstd::arithmetic::power::lemma_pow_positive(10, frac.len());
                            let a = crate::strutil::digits_val(int_part);
                            let p = vstd::arithmetic::power::pow(10, frac.len());
                            assert(a * p >= 0) by (nonlinear_arith)
                                requires
                                    a >= 0,
                                    p >= 1,
                            ;
                        }
                        assert(spec_parse_ratio(f) is None);
                    }
                    return None;
                },
            };
            let den = match crate::strutil::pow10_u128(end - (dot + 1)) {
                Some(x) => x,
                None => {
                    proof {
                        assert(frac.len() == end - dot - 1);
                        assert(spec_parse_ratio(f) is None);
                    }
                    return None;
                },
            };
            proof {
                assert(frac.len() == end - dot - 1);
                crate::strutil::lemma_digits_concat(int_part, frac);
                crate::strutil::lemma_digits_val_nonneg(int_part);
                crate::strutil::lemma_digits_val_nonneg(frac);
            }
            let num = match int_val.checked_mul(den) {
                Some(x) => x,
                None => {
                    proof {
                        assert(spec_parse_ratio(f) is None);
                    }
                    return None;
                },
            };
            let num2 = match num.checked_add(frac_val) {
                Some(x) => x,
                None => {
                    proof {
                        assert(spec_parse_ratio(f) is None);
                    }
                    return None;
                },
            };
            proof {
                assert(crate::strutil::digits_val(int_part + frac) == num2);
                assert(spec_parse_ratio(f) == Some(Ratio { num: num2, den }));
            }
            Some(Ratio { num: num2, den })
        } else {
            match crate::strutil::parse_u128(v, start, end) {
                Some(x) => {
                    proof {
                        assert(f =~= v@.subrange(start as int, end as int));
                    }
                    Some(Ratio { num: x, den: 1 })
                },
                None => {
                    proof {
                        assert(spec_parse_ratio(f) is None);
                    }
                    None
                },
            }
        }
    }
}

/// Two digit strings in sequence are one digit string.
proof fn lemma_all_digits_concat(a: Seq<char>, b: Seq<char>)
    requires
        crate::strutil::all_digits(a),
        crate::strutil::all_digits(b),
    ensures
        crate::strutil::all_digits(a + b),
{
    assert forall|i: int| 0 <= i < (a + b).len() implies crate::strutil::is_digit(
        #[trigger] (a + b)[i],
    ) by {
        if i < a.len() {
            assert((a + b)[i] == a[i]);
        } else {
            assert((a + b)[i] == b[i - a.len()]);
        }
    }
}

impl ProbabilityModel {
    /// Parse a rendered model: one record per line, each holding an n-gram,
    /// a tab, and a probability written `numerator/denominator`, as an
    /// exact decimal `int.frac` (read as `digits(int frac) / 10^|frac|`),
    /// or as a whole number. Fails exactly when some line is ill-formed. A
    /// later record for an n-gram overwrites an earlier one; when the
    /// records' n-grams are distinct — as in every rendered well-formed
    /// model — the parsed model holds exactly the records, in order.
    #[verifier::rlimit(100)]
    pub fn parse(name: &str, content: &Vec<char>) -> (r: Result<
        ProbabilityModel,
        ProbabilityModelError,
    >)
        ensures
            r is Ok <==> parse_model_spec(content@) is Some,
            r is Ok ==> r->Ok_0.wf() && r->Ok_0.name@ == name@,
            // a later record for the same n-gram overwrites an earlier one
            r is Ok ==> r->Ok_0.entries() == upsert_all(
                Seq::empty(),
                parse_model_spec(content@)->Some_0,
            ),
            (r is Ok && parse_model_spec(content@)->Some_0.map_values(
                |e: ProbEntry| e.0,
            ).no_duplicates()) ==> r->Ok_0.entries() == parse_model_spec(content@)->Some_0,
    {
        let mut model = match ProbabilityModel::from_name(name) {
            Ok(m) => m,
            Err(_) => {
                proof {
                    assert(false);
                }
                return Err(ProbabilityModelError::new("cannot initialise model"));
            },
        };
        let len = content.len();
        let mut pos: usize = 0;
        let ghost mut done: Seq<ProbEntry> = Seq::empty();
        proof {
            assert(model.entries() =~= done);
            assert(model.entries() == upsert_all(Seq::empty(), done));
            assert(content@.subrange(0, len as int) =~= content@);
            match parse_model_spec(content@) {
                Some(tail) => {
                    assert(done + tail =~= tail);
                },
                None => {},
            }
        }
        while pos < len
            invariant
                pos <= len,
                len == content@.len(),
                model.wf(),
                model.name@ == name@,
                match parse_model_spec(content@.subrange(pos as int, len as int)) {
                    Some(tail) => parse_model_spec(content@) == Some(done + tail),
                    None => parse_model_spec(content@) is None,
                },
                model.entries() == upsert_all(Seq::empty(), done),
                done.map_values(|e: ProbEntry| e.0).no_duplicates() ==> model.entries() == done,
            decreases len - pos,
        {
            let ghost rest = content@.subrange(pos as int, len as int);
            let jn = find_char_in(content, pos, len, '\n');
            let ghost jr = jn - pos;
            let ghost line = if jr < rest.len() {
                rest.subrange(0, jr as int)
            } else {
                rest
            };
            proof {
                if jr < rest.len() {
                    assert(line =~= content@.subrange(pos as int, jn as int));
                } else {
                    assert(line =~= content@.subrange(pos as int, jn as int));
                }
            }
            let t = find_char_in(content, pos, jn, '\t');
            proof {
                assert(find_char(line, '\t') == t - pos) by {
                    assert(line == content@.subrange(pos as int, jn as int));
                }
            }
            if t == jn {
                proof {
                    lemma_find_char(line, '\t');
                    assert(parse_line_spec(line) is None);
                    assert(parse_model_spec(rest) is None);
                }
                return Err(ProbabilityModelError::new("illformed line in model"));
            }
            let key = crate::strutil::chars_to_string(content, pos, t);
            let ghost lrest = line.subrange(t - pos + 1, line.len() as int);
            proof {
                assert(lrest =~= content@.subrange(t + 1, jn as int));
            }
            let ratio = match parse_ratio_field(content, t + 1, jn) {
                Some(p) => p,
                None => {
                    proof {
                        assert(parse_line_spec(line) is None);
                        assert(parse_model_spec(rest) is None);
                    }
                    return Err(ProbabilityModelError::new("illformed probability in model"));
                },
            };
            let ghost e = (key@, ratio);
            proof {
                assert(key@ =~= line.subrange(0, t - pos));
                assert(parse_line_spec(line) == Some(e));
            }
            let ghost prev_done = done;
            let ghost prev_entries = model.entries();
            let ghost prev_model = model;
            model.insert(key, ratio);
            proof {
                done = prev_done + seq![e];
                // the concrete insert is the specified upsert
                assert(done.drop_last() =~= prev_done);
                assert(done.last() == e);
                assert(model.entries() == upsert(prev_entries, e)) by {
                    assert(prev_model.has_key(e.0) == model_has(prev_entries, e.0));
                    if prev_model.has_key(e.0) {
                        let i0 = choose|i0: int|
                            0 <= i0 < prev_model.keys().len() && prev_model.keys()[i0] == e.0
                                && model.entries() == prev_entries.update(i0, (e.0, ratio));
                        let ks = prev_entries.map_values(|x: ProbEntry| x.0);
                        let j0 = choose|j0: int| 0 <= j0 < ks.len() && #[trigger] ks[j0] == e.0;
                        assert(j0 == i0) by {
                            if j0 != i0 {
                                assert(prev_model.keys()[j0] == e.0);
                                assert(prev_model.keys().no_duplicates());
                                assert(false);
                            }
                        }
                        assert((e.0, ratio) == e);
                    } else {
                        assert(model.entries() == prev_entries.push((e.0, ratio)));
                        assert((e.0, ratio) == e);
                    }
                }
            }
            let newpos = if jn < len {
                jn + 1
            } else {
                len
            };
            proof {
                let rest2 = content@.subrange(newpos as int, len as int);
                assert(find_char(rest, '\n') == jr);
                if jr < rest.len() {
                    assert(rest.subrange(jr + 1, rest.len() as int) =~= rest2);
                    assert(parse_model_spec(rest) == (match parse_model_spec(rest2) {
                        Some(es) => Some(seq![e] + es),
                        None => None::<Seq<ProbEntry>>,
                    }));
                } else {
                    assert(rest2 =~= Seq::<char>::empty());
                    assert(parse_model_spec(rest2) == Some(Seq::<ProbEntry>::empty()));
                    assert(parse_model_spec(rest) == Some(seq![e]));
                    assert(seq![e] + Seq::<ProbEntry>::empty() =~= seq![e]);
                }
                match parse_model_spec(rest2) {
                    Some(tail2) => {
                        assert(parse_model_spec(rest) == Some(seq![e] + tail2));
                        assert(prev_done + (seq![e] + tail2) =~= done + tail2);
                    },
                    None => {
                        assert(parse_model_spec(rest) is None);
                    },
                }
                // conditional exactness
                if done.map_values(|ee: ProbEntry| ee.0).no_duplicates() {
                    let dk = done.map_values(|ee: ProbEntry| ee.0);
                    let pk = prev_done.map_values(|ee: ProbEntry| ee.0);
                    assert forall|k: int| 0 <= k < pk.len() implies pk[k] == dk[k] by {
                        assert(pk[k] == prev_done[k].0);
                        assert(dk[k] == done[k].0);
                    }
                    assert(pk =~= dk.subrange(0, pk.len() as int));
                    assert(pk.no_duplicates()) by {
                        assert forall|a: int, b: int|
                            0 <= a < pk.len() && 0 <= b < pk.len() && a != b implies pk[a]
                            != pk[b] by {
                            assert(pk[a] == dk[a] && pk[b] == dk[b]);
                        }
                    }
                    assert(prev_entries == prev_done);
                    assert(!prev_done.map_values(|ee: ProbEntry| ee.0).contains(e.0)) by {
                        if pk.contains(e.0) {
                            let w = choose|w: int| 0 <= w < pk.len() && pk[w] == e.0;
                            assert(dk[w] == e.0);
                            assert(dk[dk.len() - 1] == done[done.len() - 1].0);
                            assert(done[done.len() - 1] == e);
                            assert(dk[w] == dk[dk.len() - 1]);
                        }
                    }
                    assert(!model_has(prev_entries, e.0)) by {
                        if model_has(prev_entries, e.0) {
                            let pek = prev_entries.map_values(|ee: ProbEntry| ee.0);
                            let w = choose|w: int| 0 <= w < pek.len() && #[trigger] pek[w] == e.0;
                            assert(pk[w] == e.0);
                        }
                    }
                    assert(model.entries() =~= done);
                }
            }
            pos = newpos;
        }
        proof {
            let rest = content@.subrange(pos as int, len as int);
            assert(rest =~= Seq::<char>::empty());
            assert(parse_model_spec(rest) == Some(Seq::<ProbEntry>::empty()));
            assert(done + Seq::<ProbEntry>::empty() =~= done);
        }
        Ok(model)
    }
}

/// Whether `key` is among the keys of an entry list.
pub open spec fn model_has(es: Seq<ProbEntry>, key: Seq<char>) -> bool {
    es.map_values(|e: ProbEntry| e.0).contains(key)
}

/// Record `e` into an entry list: an entry with the same key is overwritten
/// in place, a new key is appended.
pub open spec fn upsert(es: Seq<ProbEntry>, e: ProbEntry) -> Seq<ProbEntry> {
    if model_has(es, e.0) {
        let ks = es.map_values(|x: ProbEntry| x.0);
        let i = choose|i: int| 0 <= i < ks.len() && #[trigger] ks[i] == e.0;
        es.update(i, e)
    } else {
        es.push(e)
    }
}

/// Record the entries of `new` into `es`, in order: a later entry for the
/// same key overwrites an earlier one.
pub open spec fn upsert_all(es: Seq<ProbEntry>, new: Seq<ProbEntry>) -> Seq<ProbEntry>
    decreases new.len(),
{
    if new.len() == 0 {
        es
    } else {
        upsert(upsert_all(es, new.drop_last()), new.last())
    }
}

} // verus!

verus! {

/// The literal `.model`.
pub open spec fn lit_dot_model() -> Seq<char> {
    seq!['.', 'm', 'o', 'd', 'e', 'l']
}

/// `lit` occurs in `s` at position `i`.
pub open spec fn starts_at(s: Seq<char>, i: int, lit: Seq<char>) -> bool {
    0 <= i && i + lit.len() <= s.len() && s.subrange(i, i + lit.len()) == lit
}

/// Whether `.model` occurs at `i`.
fn has_dot_model_at(v: &Vec<char>, i: usize) -> (b: bool)
    requires
        i <= v@.len(),
    ensures
        b == starts_at(v@, i as int, lit_dot_model()),
{
    if v.len() >= 6 && i <= v.len() - 6 && v[i] == '.' && v[i + 1] == 'm' && v[i + 2] == 'o'
        && v[i + 3] == 'd' && v[i + 4] == 'e' && v[i + 5] == 'l' {
        proof {
            assert(v@.subrange(i as int, i + 6) =~= lit_dot_model());
        }
        true
    } else {
        proof {
            if starts_at(v@, i as int, lit_dot_model()) {
                assert forall|k: int| 0 <= k < 6 implies v@[i + k] == lit_dot_model()[k] by {
                    assert(v@.subrange(i as int, i + 6)[k] == v@[i + k]);
                }
                assert(v@[i as int] == '.');
                assert(v@[i + 1] == 'm');
                assert(v@[i + 2] == 'o');
                assert(v@[i + 3] == 'd');
                assert(v@[i + 4] == 'e');
                assert(v@[i + 5] == 'l');
            }
        }
        false
    }
}

/// Start of the file's base name: the position after the last `/` of the
/// path, or zero when the path has no directory part.
pub open spec fn base_start(s: Seq<char>) -> int
    decreases s.len(),
{
    if s.len() == 0 {
        0
    } else if s.last() == '/' {
        s.len() as int
    } else {
        base_start(s.drop_last())
    }
}

/// The model name of a path: the file's base name with the `.model` suffix
/// stripped. Nothing is parsed from a base name that is not of the form
/// `<name>.model` with a non-empty name.
pub open spec fn spec_parse_name(s: Seq<char>) -> Option<Seq<char>> {
    let b = base_start(s);
    if s.len() >= lit_dot_model().len() + 1 && b <= s.len() - lit_dot_model().len() - 1
        && starts_at(s, s.len() - lit_dot_model().len(), lit_dot_model()) {
        Some(s.subrange(b, s.len() - lit_dot_model().len()))
    } else {
        None
    }
}

/// Position after the last `/` of the path, or zero without one.
fn base_start_exec(v: &Vec<char>) -> (b: usize)
    ensures
        b == base_start(v@),
        b <= v@.len(),
{
    let mut b: usize = 0;
    let mut i: usize = 0;
    while i < v.len()
        invariant
            b <= i <= v@.len(),
            b == base_start(v@.subrange(0, i as int)),
        decreases v@.len() - i,
    {
        let ghost prefix = v@.subrange(0, i as int);
        let ghost prefix1 = v@.subrange(0, i + 1);
        proof {
            assert(prefix1.drop_last() =~= prefix);
            assert(prefix1.last() == v@[i as int]);
        }
        if v[i] == '/' {
            b = i + 1;
        }
        i = i + 1;
    }
    proof {
        assert(v@.subrange(0, v@.len() as int) =~= v@);
    }
    b
}

impl ProbabilityModel {
    /// The model name in `path`: the file's base name with the `.model`
    /// suffix stripped. Fails exactly when the base name is not of the form
    /// `<name>.model` with a non-empty name.
    pub fn parse_name_from_path(path: &str) -> (r: Result<String, ProbabilityModelError>)
        ensures
            r is Ok <==> spec_parse_name(path@) is Some,
            r is Ok ==> Some(r->Ok_0@) == spec_parse_name(path@),
    {
        let v = crate::strutil::chars_of(path);
        let b = base_start_exec(&v);
        if v.len() < 7 || b > v.len() - 7 {
            return Err(ProbabilityModelError::new("cannot parse model name from path"));
        }
        if has_dot_model_at(&v, v.len() - 6) {
            let name = crate::strutil::chars_to_string(&v, b, v.len() - 6);
            Ok(name)
        } else {
            Err(ProbabilityModelError::new("cannot parse model name from path"))
        }
    }
}

} // verus!
