//! The multi-length count model: one per-length count model for every
//! n-gram length from 1 to the configured maximum, each total over the
//! exhaustive universe of its length.

use vstd::prelude::*;
use crate::models::errors::CountModelError;
use crate::models::ngram_model::{
    dedup_views, lemma_dedup_views, lemma_universe_totality, universe, NGramGenerator, NGramModel,
};
use crate::models::sigma::Sigma;
use crate::models::text_model::{window_count, TextModel};
use crate::models::{
    count_matches, lemma_count_matches_is_occurrences, lemma_window_over_alphabet, occurrences,
};
use crate::smoothing::{smoothing, SmoothingType};

verus! {

/// N-gram occurrence counts for every length from 1 to a maximum, each
/// length total over its exhaustive universe.
pub struct CountModel {
    max_ngram_length: usize,
    ngram_models: Vec<NGramModel>,
}

impl CountModel {
    /// The maximum n-gram length.
    pub closed spec fn max_len(&self) -> int {
        self.max_ngram_length as int
    }

    /// The per-length models: position `i` holds the model of length `i + 1`.
    pub closed spec fn models(&self) -> Seq<NGramModel> {
        self.ngram_models@
    }

    /// The model of n-gram length `n`.
    pub open spec fn model_of_len(&self, n: int) -> NGramModel {
        self.models()[n - 1]
    }

    /// Well-formedness: one well-formed model per length.
    pub open spec fn wf(&self) -> bool {
        &&& self.models().len() == self.max_len()
        &&& forall|i: int| 0 <= i < self.models().len() ==> (#[trigger] self.models()[i]).wf()
    }

    /// The model of every length has the exhaustive universe over
    /// `sigma_views` as its keys.
    pub open spec fn total_over(&self, sigma_views: Seq<Seq<char>>) -> bool {
        forall|n: int|
            1 <= n <= self.max_len() ==> (#[trigger] self.model_of_len(n)).keys() == universe(
                sigma_views,
                n as nat,
            )
    }

    /// Build one zero-initialised count model per length `1..=max`, each
    /// total over the exhaustive n-gram universe of the alphabet.
    pub fn from_sigma(sigma: &Sigma, max_ngram_length: usize) -> (r: Result<
        CountModel,
        CountModelError,
    >)
        requires
            sigma.wf(),
        ensures
            r is Ok,
            r->Ok_0.wf(),
            r->Ok_0.max_len() == max_ngram_length,
            r->Ok_0.total_over(sigma.sym_views()),
            forall|n: int|
                1 <= n <= max_ngram_length ==> {
                    &&& (#[trigger] r->Ok_0.model_of_len(n)).denom() == 1
                    &&& r->Ok_0.model_of_len(n).total_num() == 0
                    &&& forall|k: int|
                        0 <= k < r->Ok_0.model_of_len(n).nums().len() ==> r->Ok_0.model_of_len(
                            n,
                        ).nums()[k] == 0
                },
    {
        let mut ngram_models: Vec<NGramModel> = Vec::new();
        let mut i: usize = 0;
        while i < max_ngram_length
            invariant
                i <= max_ngram_length,
                sigma.wf(),
                ngram_models@.len() == i,
                forall|i: int|
                    0 <= i < ngram_models@.len() ==> {
                        &&& (#[trigger] ngram_models@[i]).wf()
                        &&& ngram_models@[i].keys() == universe(sigma.sym_views(), (i + 1) as nat)
                        &&& ngram_models@[i].denom() == 1
                        &&& ngram_models@[i].total_num() == 0
                        &&& forall|k: int|
                            0 <= k < ngram_models@[i].nums().len() ==> ngram_models@[i].nums()[k]
                                == 0
                    },
            decreases max_ngram_length - i,
        {
            let ngram_length = i + 1;
            let generator = NGramGenerator { unigrams: sigma.as_string_vec() };
            let ngrams: Vec<String> = generator.generate(ngram_length);
            proof {
                lemma_universe_totality(sigma.sym_views(), ngram_length as nat);
                lemma_dedup_views(universe(sigma.sym_views(), ngram_length as nat));
            }
            match NGramModel::from_ngrams(&ngrams) {
                Ok(m) => {
                    ngram_models.push(m);
                },
                Err(_) => {
                    // from_ngrams always succeeds; this arm is unreachable
                    assert(false);
                },
            }
            i = i + 1;
        }
        Ok(CountModel { max_ngram_length, ngram_models })
    }

    /// The maximum n-gram length.
    pub fn get_max_ngram_length(&self) -> (m: usize)
        ensures
            m == self.max_len(),
    {
        self.max_ngram_length
    }

    /// Every key of every length's model is an n-gram of that length.
    pub open spec fn keys_sized(&self) -> bool {
        forall|n: int|
            #![trigger self.model_of_len(n)]
            1 <= n <= self.max_len() ==> forall|k: int|
                0 <= k < self.model_of_len(n).keys().len() ==> (#[trigger] self.model_of_len(
                    n,
                ).keys()[k]).len() == n
    }

    /// The count model of n-gram length `idx`, or `None` when the length is
    /// out of range.
    pub fn get_ngram_model(&self, idx: usize) -> (r: Option<&NGramModel>)
        requires
            self.wf(),
        ensures
            match r {
                Some(m) => 1 <= idx <= self.max_len() && *m == self.model_of_len(idx as int),
                None => !(1 <= idx <= self.max_len()),
            },
    {
        if idx >= 1 && idx <= self.max_ngram_length {
            Some(&self.ngram_models[idx - 1])
        } else {
            None
        }
    }

    /// The text can be counted into the model of length `n`: every n-window
    /// of the padded text is a key of that model's universe, and the grown
    /// total stays representable.
    pub open spec fn countable_len(&self, text: TextModel, n: int) -> bool {
        &&& forall|i: int|
            0 <= i <= text.padded_views().len() - n ==> self.model_of_len(n).has_key(
                #[trigger] crate::models::window_at(text.padded_views(), i, n),
            )
        &&& self.model_of_len(n).total_num() + window_count(text.padded_views(), n)
            * self.model_of_len(n).denom() <= u128::MAX
    }

    /// The text can be counted at every length: no extracted n-gram is
    /// missing from its universe, and no total outgrows its range.
    pub open spec fn countable(&self, text: TextModel) -> bool {
        forall|n: int|
            #![trigger self.model_of_len(n)]
            1 <= n <= self.max_len() ==> self.countable_len(text, n)
    }

    /// Count the n-grams of every length `1..=max` from the text model's
    /// padded symbol sequence. Succeeds exactly when every extracted n-gram
    /// is a key of its length's universe and every total stays
    /// representable; a missing n-gram means the universe was not built
    /// over the text's alphabet.
    pub fn count_ngrams_from_text_model(&mut self, text_model: &TextModel) -> (r: Result<
        (),
        CountModelError,
    >)
        requires
            old(self).wf(),
        ensures
            final(self).wf(),
            final(self).max_len() == old(self).max_len(),
            r is Ok <==> old(self).countable(*text_model),
            (r is Err && (forall|n: int|
                #![trigger old(self).model_of_len(n)]
                1 <= n <= old(self).max_len() ==> old(self).model_of_len(n).total_num() == 0
                    && old(self).model_of_len(n).denom() == 1)) ==> (exists|n: int|
                #![trigger old(self).model_of_len(n)]
                1 <= n <= old(self).max_len() && !(forall|i: int|
                    0 <= i <= text_model.padded_views().len() - n ==> old(self).model_of_len(
                        n,
                    ).has_key(#[trigger] crate::models::window_at(
                        text_model.padded_views(),
                        i,
                        n,
                    )))),
            forall|n: int|
                1 <= n <= old(self).max_len() ==> (#[trigger] final(self).model_of_len(n)).keys()
                    == old(self).model_of_len(n).keys() && final(self).model_of_len(n).denom()
                    == old(self).model_of_len(n).denom(),
            r is Ok ==> forall|n: int|
                #![trigger old(self).model_of_len(n)]
                1 <= n <= old(self).max_len() ==> forall|k: int|
                    0 <= k < old(self).model_of_len(n).nums().len() ==> (#[trigger] final(self).model_of_len(n).nums()[k]) == old(self).model_of_len(n).nums()[k]
                        + occurrences(
                        text_model.padded_views(),
                        old(self).model_of_len(n).keys()[k],
                        n,
                    ) * old(self).model_of_len(n).denom(),
            r is Ok ==> forall|n: int|
                #![trigger final(self).model_of_len(n).total_num()]
                1 <= n <= old(self).max_len() ==> final(self).model_of_len(n).total_num() == old(
                    self,
                ).model_of_len(n).total_num() + window_count(text_model.padded_views(), n) * old(
                    self,
                ).model_of_len(n).denom(),
    {
        let mut i: usize = 0;
        while i < self.max_ngram_length
            invariant
                i <= self.max_ngram_length,
                old(self).wf(),
                self.wf(),
                self.max_len() == old(self).max_len(),
                forall|n: int|
                    1 <= n <= old(self).max_len() ==> (#[trigger] self.model_of_len(n)).keys()
                        == old(self).model_of_len(n).keys() && self.model_of_len(n).denom() == old(self).model_of_len(n).denom(),
                forall|n: int|
                    #![trigger self.model_of_len(n).total_num()]
                    1 <= n < i + 1 ==> self.model_of_len(n).total_num() == old(self).model_of_len(
                        n,
                    ).total_num() + window_count(text_model.padded_views(), n) * old(
                        self,
                    ).model_of_len(n).denom(),
                forall|n: int|
                    #![trigger old(self).model_of_len(n)]
                    1 <= n < i + 1 ==> old(self).countable_len(*text_model, n),
                forall|n: int|
                    #![trigger old(self).model_of_len(n)]
                    1 <= n < i + 1 ==> forall|k: int|
                        0 <= k < old(self).model_of_len(n).nums().len() ==> (#[trigger] self
                            .model_of_len(n).nums()[k]) == old(self).model_of_len(n).nums()[k]
                            + occurrences(
                            text_model.padded_views(),
                            old(self).model_of_len(n).keys()[k],
                            n,
                        ) * old(self).model_of_len(n).denom(),
                forall|n: int|
                    i + 1 <= n <= old(self).max_len() ==> (#[trigger] self.model_of_len(n)) == old(self).model_of_len(n),
            decreases self.max_ngram_length - i,
        {
            let idx = i + 1;
            let ngrams: Vec<String> = text_model.string_ngrams(idx);
            let ngram_count = ngrams.len();
            let ghost snapshot = *self;
            match self.count_ngrams(&ngrams, idx) {
                Ok(()) => {
                    proof {
                        let parts = text_model.padded_views();
                        let n = idx as int;
                        let ws = crate::models::string_views(ngrams@);
                        assert forall|key: Seq<char>|
                            true implies count_matches(ws, key) == occurrences(parts, key, n) by {
                            lemma_count_matches_is_occurrences(
                                ws,
                                parts,
                                key,
                                n,
                                window_count(parts, n),
                            );
                            if parts.len() < n {
                                assert(occurrences_prefix_zero(parts, key, n));
                            }
                        }
                        assert(old(self).countable_len(*text_model, n)) by {
                            assert(snapshot.model_of_len(n) == old(self).model_of_len(n));
                            assert forall|t: int| 0 <= t <= parts.len() - n
                                implies old(self).model_of_len(n).has_key(
                                #[trigger] crate::models::window_at(parts, t, n),
                            ) by {
                                assert(ws[t] == ngrams@[t]@);
                                assert(ws[t] == crate::models::window_at(parts, t, n));
                                assert(snapshot.model_of_len(n).has_key(ws[t]));
                            }
                        }
                    }
                },
                Err(e) => {
                    proof {
                        let parts = text_model.padded_views();
                        let n = idx as int;
                        let ws = crate::models::string_views(ngrams@);
                        assert(snapshot.model_of_len(n) == old(self).model_of_len(n));
                        assert(!old(self).countable_len(*text_model, n)) by {
                            if old(self).countable_len(*text_model, n) {
                                assert forall|t: int| 0 <= t < ws.len()
                                    implies snapshot.model_of_len(n).has_key(
                                    #[trigger] ws[t],
                                ) by {
                                    assert(ws[t] == ngrams@[t]@);
                                    assert(ws[t] == crate::models::window_at(parts, t, n));
                                    assert(old(self).model_of_len(n).has_key(
                                        crate::models::window_at(parts, t, n),
                                    ));
                                }
                                assert(snapshot.model_of_len(n).total_num() + ngrams@.len()
                                    * snapshot.model_of_len(n).denom() <= u128::MAX);
                                assert(false);
                            }
                        }
                        assert(!old(self).countable(*text_model));
                        if forall|nn: int|
                            #![trigger old(self).model_of_len(nn)]
                            1 <= nn <= old(self).max_len() ==> old(self).model_of_len(
                                nn,
                            ).total_num() == 0 && old(self).model_of_len(nn).denom() == 1 {
                            // a fresh model's total cannot outgrow its range here: the
                            // grown total is the window count, and the windows exist as
                            // a vector
                            assert(old(self).model_of_len(n).total_num() == 0);
                            assert(old(self).model_of_len(n).denom() == 1);
                            assert(window_count(parts, n) == ngrams@.len());
                            assert(ngrams@.len() == ngram_count);
                            assert(window_count(parts, n) * 1 == window_count(parts, n))
                                by (nonlinear_arith);
                            assert(old(self).model_of_len(n).total_num() + window_count(parts, n)
                                * old(self).model_of_len(n).denom() <= u128::MAX);
                            assert(!(forall|i: int|
                                0 <= i <= parts.len() - n ==> old(self).model_of_len(n).has_key(
                                    #[trigger] crate::models::window_at(parts, i, n),
                                )));
                        }
                    }
                    return Err(e);
                },
            }
            i = i + 1;
        }
        Ok(())
    }

    /// Count the given n-grams into the model of length `ngram_length`.
    /// Fails when the length is out of range, when an n-gram is missing from
    /// that length's universe, or when a count total can no longer be
    /// represented.
    pub fn count_ngrams(&mut self, ngrams: &Vec<String>, ngram_length: usize) -> (r: Result<
        (),
        CountModelError,
    >)
        requires
            old(self).wf(),
        ensures
            final(self).wf(),
            final(self).max_len() == old(self).max_len(),
            forall|n: int|
                1 <= n <= old(self).max_len() ==> (#[trigger] final(self).model_of_len(n)).keys()
                    == old(self).model_of_len(n).keys() && final(self).model_of_len(n).denom()
                    == old(self).model_of_len(n).denom(),
            forall|n: int|
                1 <= n <= old(self).max_len() && n != ngram_length ==> (#[trigger] final(self).model_of_len(n)) == old(self).model_of_len(n),
            r is Ok <==> (1 <= ngram_length <= old(self).max_len() && (forall|i: int|
                0 <= i < ngrams@.len() ==> old(self).model_of_len(ngram_length as int).has_key(
                    #[trigger] crate::models::string_views(ngrams@)[i],
                )) && old(self).model_of_len(ngram_length as int).total_num() + ngrams@.len() * old(self).model_of_len(ngram_length as int).denom() <= u128::MAX),
            r is Ok ==> {
                let before = old(self).model_of_len(ngram_length as int);
                let after = final(self).model_of_len(ngram_length as int);
                &&& after.total_num() == before.total_num() + ngrams@.len() * before.denom()
                &&& forall|k: int|
                    0 <= k < before.keys().len() ==> after.nums()[k] == before.nums()[k]
                        + count_matches(crate::models::string_views(ngrams@), before.keys()[k])
                        * before.denom()
            },
    {
        if ngram_length < 1 || ngram_length > self.max_ngram_length {
            return Err(CountModelError::new("no count model for this ngram length"));
        }
        let i = ngram_length - 1;
        let ghost pre = self.ngram_models@;
        let result = mutate_at(&mut self.ngram_models, i, ngrams);
        proof {
            assert forall|n: int| 1 <= n <= old(self).max_len() && n != ngram_length
                implies (#[trigger] self.model_of_len(n)) == old(self).model_of_len(n) by {
                assert(self.ngram_models@[n - 1] == pre[n - 1]);
            }
        }
        match result {
            Ok(()) => Ok(()),
            Err(e) => Err(CountModelError::new(e.message())),
        }
    }

    /// Apply the chosen smoothing policy to every length's count model.
    /// Succeeds exactly when the policy's rescaled numbers are representable
    /// for every length; `NoSmoothing` always succeeds.
    pub fn smooth(&mut self, smoothing_type: &SmoothingType) -> (r: Result<(), CountModelError>)
        requires
            old(self).wf(),
        ensures
            final(self).wf(),
            final(self).max_len() == old(self).max_len(),
            r is Ok <==> forall|n: int|
                #![trigger old(self).model_of_len(n)]
                1 <= n <= old(self).max_len() ==> crate::smoothing::smoothing_feasible(
                    old(self).model_of_len(n),
                    *smoothing_type,
                ),
            forall|n: int|
                1 <= n <= old(self).max_len() ==> (#[trigger] final(self).model_of_len(n)).keys()
                    == old(self).model_of_len(n).keys(),
            r is Ok ==> forall|n: int|
                1 <= n <= old(self).max_len() ==> match *smoothing_type {
                    SmoothingType::NoSmoothing => #[trigger] final(self).model_of_len(n) == old(self).model_of_len(n),
                    SmoothingType::AddOneSmoothing => crate::smoothing::add_one_contract(
                        old(self).model_of_len(n),
                        final(self).model_of_len(n),
                        true,
                    ),
                    SmoothingType::WittenBellSmoothing => crate::smoothing::witten_bell_contract(
                        old(self).model_of_len(n),
                        final(self).model_of_len(n),
                        true,
                    ),
                },
    {
        let mut idx: usize = 0;
        while idx < self.ngram_models.len()
            invariant
                idx <= self.ngram_models@.len(),
                old(self).wf(),
                self.wf(),
                self.max_len() == old(self).max_len(),
                self.models().len() == old(self).models().len(),
                forall|i: int|
                    0 <= i < old(self).models().len() ==> (#[trigger] self.models()[i]).keys()
                        == old(self).models()[i].keys(),
                forall|i: int|
                    0 <= i < idx ==> crate::smoothing::smoothing_feasible(
                        #[trigger] old(self).models()[i],
                        *smoothing_type,
                    ),
                forall|i: int|
                    0 <= i < idx ==> match *smoothing_type {
                        SmoothingType::NoSmoothing => #[trigger] self.models()[i] == old(self).models()[i],
                        SmoothingType::AddOneSmoothing => crate::smoothing::add_one_contract(
                            old(self).models()[i],
                            self.models()[i],
                            true,
                        ),
                        SmoothingType::WittenBellSmoothing => crate::smoothing::witten_bell_contract(
                            old(self).models()[i],
                            self.models()[i],
                            true,
                        ),
                    },
                forall|i: int|
                    idx <= i < old(self).models().len() ==> (#[trigger] self.models()[i]) == old(self).models()[i],
            decreases self.ngram_models@.len() - idx,
        {
            let ghost pre = self.ngram_models@;
            let result = smooth_at(&mut self.ngram_models, idx, smoothing_type);
            proof {
                assert forall|i: int| 0 <= i < old(self).models().len() && i != idx
                    implies (#[trigger] self.models()[i]) == pre[i] by {
                }
            }
            match result {
                Ok(()) => {},
                Err(e) => {
                    proof {
                        assert(pre[idx as int] == old(self).models()[idx as int]);
                        assert(!crate::smoothing::smoothing_feasible(
                            old(self).model_of_len(idx + 1),
                            *smoothing_type,
                        ));
                    }
                    return Err(CountModelError::new(e.message()));
                },
            }
            idx = idx + 1;
        }
        proof {
            assert forall|n: int| 1 <= n <= old(self).max_len()
                implies crate::smoothing::smoothing_feasible(
                #[trigger] old(self).model_of_len(n),
                *smoothing_type,
            ) by {
                assert(crate::smoothing::smoothing_feasible(
                    old(self).models()[n - 1],
                    *smoothing_type,
                ));
            }
        }
        Ok(())
    }

    /// Iterate the pairs of count models of successive lengths:
    /// (1-gram model, 2-gram model), (2-gram model, 3-gram model), and so on.
    pub fn iter_tuple(&self) -> (it: CountModelTupleIter<'_>)
        ensures
            it.source() == *self,
            it.pos() == 0,
    {
        CountModelTupleIter { model: self, idx: 0 }
    }

}

/// Zero occurrences fit in a text shorter than the window.
pub open spec fn occurrences_prefix_zero(parts: Seq<Seq<char>>, key: Seq<char>, n: int) -> bool {
    occurrences(parts, key, n) == 0
}

/// Count conservation: training a fresh count model — all counts zero, all
/// denominators one — on a text gives length-n counts that sum to exactly
/// the number of length-n windows of the padded text, L - n + 1.
pub proof fn lemma_count_conservation(
    before: CountModel,
    after: CountModel,
    text: TextModel,
    n: int,
)
    requires
        1 <= n <= before.max_len(),
        before.wf(),
        after.wf(),
        after.max_len() == before.max_len(),
        before.model_of_len(n).total_num() == 0,
        before.model_of_len(n).denom() == 1,
        after.model_of_len(n).total_num() == before.model_of_len(n).total_num() + window_count(
            text.padded_views(),
            n,
        ) * before.model_of_len(n).denom(),
    ensures
        crate::models::sum_nums(after.model_of_len(n).nums()) == window_count(
            text.padded_views(),
            n,
        ),
{
    assert(after.models()[n - 1].wf());
    let w = window_count(text.padded_views(), n);
    assert(w * 1 == w) by (nonlinear_arith);
}

/// Count `ngrams` into position `i` of a model list, leaving the others
/// unchanged.
fn mutate_at(models: &mut Vec<NGramModel>, i: usize, ngrams: &Vec<String>) -> (r: Result<
    (),
    crate::models::errors::NGramModelError,
>)
    requires
        i < old(models)@.len(),
        old(models)@[i as int].wf(),
    ensures
        final(models)@.len() == old(models)@.len(),
        forall|k: int|
            0 <= k < old(models)@.len() && k != i ==> final(models)@[k] == old(models)@[k],
        final(models)@[i as int].wf(),
        final(models)@[i as int].keys() == old(models)@[i as int].keys(),
        final(models)@[i as int].denom() == old(models)@[i as int].denom(),
        r is Ok <==> ((forall|t: int|
            0 <= t < ngrams@.len() ==> old(models)@[i as int].has_key(
                #[trigger] crate::models::string_views(ngrams@)[t],
            )) && old(models)@[i as int].total_num() + ngrams@.len() * old(models)@[i as int].denom()
            <= u128::MAX),
        r is Ok ==> {
            let before = old(models)@[i as int];
            let after = final(models)@[i as int];
            &&& after.total_num() == before.total_num() + ngrams@.len() * before.denom()
            &&& forall|k: int|
                0 <= k < before.keys().len() ==> after.nums()[k] == before.nums()[k]
                    + count_matches(crate::models::string_views(ngrams@), before.keys()[k])
                    * before.denom()
        },
{
    let m = &mut models[i];
    m.add_ngrams(ngrams)
}

/// Smooth position `i` of a model list, leaving the others unchanged.
fn smooth_at(models: &mut Vec<NGramModel>, i: usize, smoothing_type: &SmoothingType) -> (r: Result<
    (),
    crate::smoothing::errors::SmoothingError,
>)
    requires
        i < old(models)@.len(),
        old(models)@[i as int].wf(),
    ensures
        final(models)@.len() == old(models)@.len(),
        forall|k: int|
            0 <= k < old(models)@.len() && k != i ==> final(models)@[k] == old(models)@[k],
        final(models)@[i as int].wf(),
        final(models)@[i as int].keys() == old(models)@[i as int].keys(),
        r is Ok <==> crate::smoothing::smoothing_feasible(old(models)@[i as int], *smoothing_type),
        r is Ok ==> match *smoothing_type {
            SmoothingType::NoSmoothing => final(models)@[i as int] == old(models)@[i as int],
            SmoothingType::AddOneSmoothing => crate::smoothing::add_one_contract(
                old(models)@[i as int],
                final(models)@[i as int],
                true,
            ),
            SmoothingType::WittenBellSmoothing => crate::smoothing::witten_bell_contract(
                old(models)@[i as int],
                final(models)@[i as int],
                true,
            ),
        },
        r is Err ==> final(models)@[i as int] == old(models)@[i as int],
{
    let m = &mut models[i];
    smoothing(m, smoothing_type)
}

/// Iterator over pairs of count models of successive n-gram lengths.
pub struct CountModelTupleIter<'a> {
    model: &'a CountModel,
    idx: usize,
}

impl<'a> CountModelTupleIter<'a> {
    /// The count model iterated over.
    pub closed spec fn source(&self) -> CountModel {
        *self.model
    }

    /// How many pairs have been handed out.
    pub closed spec fn pos(&self) -> int {
        self.idx as int
    }

    /// The next pair (model of length `k`, model of length `k + 1`), or
    /// `None` once the larger length passes the maximum.
    pub fn next(&mut self) -> (r: Option<(&'a NGramModel, &'a NGramModel)>)
        requires
            old(self).source().wf(),
        ensures
            final(self).source() == old(self).source(),
            if old(self).pos() + 2 <= old(self).source().max_len() {
                &&& r is Some
                &&& final(self).pos() == old(self).pos() + 1
                &&& *(r->0).0 == old(self).source().model_of_len(old(self).pos() + 1)
                &&& *(r->0).1 == old(self).source().model_of_len(old(self).pos() + 2)
            } else {
                r is None && final(self).pos() == old(self).pos()
            },
    {
        if self.model.max_ngram_length >= 2 && self.idx <= self.model.max_ngram_length - 2 {
            let prefix_model = &self.model.ngram_models[self.idx];
            let ngram_model = &self.model.ngram_models[self.idx + 1];
            self.idx = self.idx + 1;
            Some((prefix_model, ngram_model))
        } else {
            None
        }
    }
}

} // verus!

verus! {

/// Every key of a count model that is total over a well-formed alphabet is
/// an n-gram of its model's length.
pub proof fn lemma_total_over_keys_sized(cm: CountModel, sigma_views: Seq<Seq<char>>)
    requires
        cm.wf(),
        cm.total_over(sigma_views),
        sigma_views.no_duplicates(),
        forall|i: int| 0 <= i < sigma_views.len() ==> (#[trigger] sigma_views[i]).len() == 1,
    ensures
        cm.keys_sized(),
{
    assert forall|n: int| #![trigger cm.model_of_len(n)] 1 <= n <= cm.max_len() implies forall|
        k: int,
    |
        0 <= k < cm.model_of_len(n).keys().len() ==> (#[trigger] cm.model_of_len(n).keys()[k]).len()
            == n by {
        lemma_universe_totality(sigma_views, n as nat);
        assert forall|k: int| 0 <= k < cm.model_of_len(n).keys().len() implies (
        #[trigger] cm.model_of_len(n).keys()[k]).len() == n by {
            let key = cm.model_of_len(n).keys()[k];
            assert(universe(sigma_views, n as nat).contains(key));
        }
    }
}

} // verus!

verus! {

/// The counts of all one-symbol extensions of `w` in the length-n count
/// model, summed over the alphabet.
pub open spec fn sum_ext_counts(
    cm: CountModel,
    sv: Seq<Seq<char>>,
    w: Seq<char>,
    n: int,
) -> int
    decreases sv.len(),
{
    if sv.len() == 0 {
        0
    } else {
        sum_ext_counts(cm, sv.drop_last(), w, n) + cm.model_of_len(n).num_of(w + sv.last())
    }
}

/// When every extension's count equals its occurrence count, the summed
/// counts equal the summed occurrences.
proof fn lemma_sum_ext_counts_eq(
    cm: CountModel,
    sv: Seq<Seq<char>>,
    parts: Seq<Seq<char>>,
    w: Seq<char>,
    n: int,
)
    requires
        forall|k: int|
            0 <= k < sv.len() ==> cm.model_of_len(n).num_of(w + #[trigger] sv[k]) == occurrences(
                parts,
                w + sv[k],
                n,
            ),
    ensures
        sum_ext_counts(cm, sv, w, n) == crate::models::ext_occ_sum(
            sv,
            parts,
            w,
            n,
            parts.len() - n + 1,
        ),
    decreases sv.len(),
{
    if sv.len() > 0 {
        let pre = sv.drop_last();
        assert forall|k: int|
            0 <= k < pre.len() implies cm.model_of_len(n).num_of(w + #[trigger] pre[k])
            == occurrences(parts, w + pre[k], n) by {
            assert(pre[k] == sv[k]);
        }
        lemma_sum_ext_counts_eq(cm, pre, parts, w, n);
        assert(sv.last() == sv[sv.len() - 1]);
    }
}

/// Probability normalization over a trained count model: with unsmoothed
/// counts — every count the occurrence count of its n-gram in the padded
/// text — the conditional probabilities of all one-symbol extensions of a
/// prefix `w` share the denominator count(`w`), and their numerators sum to
/// exactly that denominator: the probabilities sum to one. The sole
/// excluded prefix is the padded text's final (n-1)-window, whose last
/// occurrence has no successor symbol.
pub proof fn lemma_normalization_of_counts(
    cm: CountModel,
    sv: Seq<Seq<char>>,
    parts: Seq<Seq<char>>,
    w: Seq<char>,
    n: int,
)
    requires
        2 <= n <= parts.len(),
        w.len() == n - 1,
        sv.no_duplicates(),
        crate::models::all_singletons(parts),
        forall|i: int| 0 <= i < parts.len() ==> sv.contains(#[trigger] parts[i]),
        w != crate::models::window_at(parts, parts.len() - (n - 1), n - 1),
        forall|k: int|
            0 <= k < sv.len() ==> cm.model_of_len(n).num_of(w + #[trigger] sv[k]) == occurrences(
                parts,
                w + sv[k],
                n,
            ),
        cm.model_of_len(n - 1).num_of(w) == occurrences(parts, w, n - 1),
    ensures
        sum_ext_counts(cm, sv, w, n) == cm.model_of_len(n - 1).num_of(w),
{
    lemma_sum_ext_counts_eq(cm, sv, parts, w, n);
    crate::models::lemma_probability_normalization(sv, parts, w, n);
}

} // verus!

verus! {

/// Totality of counting: over a count model built from the same alphabet as
/// the text, every n-gram extracted from the padded text is already in the
/// model's universe. Together with the exact success condition of
/// `count_ngrams`, counting a text can only fail on an unrepresentable
/// total, never on a missing n-gram.
pub proof fn lemma_counting_is_total(cm: CountModel, text: TextModel, n: int)
    requires
        cm.wf(),
        text.wf(),
        cm.total_over(text.sigma_views()),
        1 <= n <= cm.max_len(),
    ensures
        forall|i: int|
            0 <= i <= text.padded_views().len() - n ==> cm.model_of_len(n).has_key(
                #[trigger] crate::models::window_at(text.padded_views(), i, n),
            ),
{
    let parts = text.padded_views();
    let sv = text.sigma_views();
    text.lemma_wf_alphabet();
    text.lemma_padded_in_sigma();
    lemma_universe_totality(sv, n as nat);
    assert forall|i: int| 0 <= i <= parts.len() - n implies cm.model_of_len(n).has_key(
        #[trigger] crate::models::window_at(parts, i, n),
    ) by {
        lemma_window_over_alphabet(parts, sv, i, n);
        let w = crate::models::window_at(parts, i, n);
        assert(universe(sv, n as nat).contains(w)) by {
            assert(w.len() == n);
            assert forall|m: int| 0 <= m < w.len() implies sv.contains(
                seq![#[trigger] w[m]],
            ) by {
            }
        }
    }
}

} // verus!
