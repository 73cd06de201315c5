use vstd::prelude::*;

pub mod config;
pub mod errors;
pub mod inferer;
pub mod models;
pub mod ngram;
pub mod smoothing;
pub mod strutil;
pub mod text_processing;
pub mod utils;

verus! {

/// Execution modes of the guesser: `Model` trains a language model from
/// example text, `Guess` classifies a text against the trained models.
pub enum Mode {
    Model,
    Guess,
}

} // verus!

verus! {

/// Train a probability model from raw example text: filter and pad the text
/// over the alphabet, count the n-grams of every length up to
/// `ngram_length`, smooth the counts under the chosen policy, and turn them
/// into conditional probabilities by the chain rule.
///
/// Counting cannot fail here: the universes are built over the text's own
/// alphabet. Without smoothing the whole run is guaranteed to succeed; under
/// the rescaling policies it fails exactly where a stage's numbers outgrow
/// their range, as `CountModel::smooth` and
/// `ProbabilityModel::add_ngram_probabilities` state precisely
/// (`smoothing_feasible`, `chain_ok`).
pub fn train_probability_model(
    sigma: &models::sigma::Sigma,
    ngram_length: usize,
    smoothing_type: &smoothing::SmoothingType,
    modelname: &str,
    raw_text: &str,
) -> (r: Result<models::probability_model::ProbabilityModel, errors::ModellingError>)
    requires
        sigma.wf(),
        ngram_length >= 1,
    ensures
        r is Ok ==> r->Ok_0.wf() && r->Ok_0.name@ == modelname@,
        (*smoothing_type) is NoSmoothing ==> r is Ok,
        r is Ok && (*smoothing_type) is NoSmoothing ==> ({
            let parts = models::text_model::padded_text_views(
                *sigma,
                ngram_length as int,
                raw_text@,
            );
            let sv = sigma.sym_views();
            &&& forall|w: Seq<char>|
                (#[trigger] w.len()) == 1 && models::ngram_model::over_alphabet(w, sv)
                    ==> r->Ok_0.has_key(w) && r->Ok_0.prob_of(w).num == models::occurrences(
                    parts,
                    w,
                    1,
                ) && r->Ok_0.prob_of(w).den == models::text_model::window_count(parts, 1)
            &&& forall|w: Seq<char>|
                1 <= (#[trigger] w.len()) <= ngram_length && models::ngram_model::over_alphabet(
                    w,
                    sv,
                ) ==> r->Ok_0.has_key(w)
            &&& forall|n: int, w: Seq<char>|
                #![trigger models::occurrences(parts, w, n)]
                2 <= n <= ngram_length && w.len() == n
                    && models::ngram_model::over_alphabet(w, sv)
                    ==> r->Ok_0.prob_of(w).num == models::occurrences(parts, w, n)
                    && r->Ok_0.prob_of(w).den == models::occurrences(
                    parts,
                    models::probability_model::prefix_of(w),
                    n - 1,
                )
        }),
{
    let mut text_model = match models::text_model::TextModel::new(ngram_length, sigma) {
        Ok(t) => t,
        Err(e) => {
            return Err(errors::ModellingError::new(e.message()));
        },
    };
    let mut count_model = match models::count_model::CountModel::from_sigma(sigma, ngram_length) {
        Ok(c) => c,
        Err(e) => {
            return Err(errors::ModellingError::new(e.message()));
        },
    };
    let mut probability_model = match models::probability_model::ProbabilityModel::from_name(
        modelname,
    ) {
        Ok(p) => p,
        Err(e) => {
            return Err(errors::ModellingError::new(e.message()));
        },
    };
    text_model.extend(raw_text);
    let ghost cm0 = count_model;
    match count_model.count_ngrams_from_text_model(&text_model) {
        Ok(()) => {},
        Err(e) => {
            proof {
                // the universes are total over the text's alphabet and the
                // counts are fresh, so counting cannot fail
                let bad = choose|bn: int|
                    #![trigger cm0.model_of_len(bn)]
                    1 <= bn <= cm0.max_len() && !(forall|i: int|
                        0 <= i <= text_model.padded_views().len() - bn ==> cm0.model_of_len(
                            bn,
                        ).has_key(#[trigger] models::window_at(
                            text_model.padded_views(),
                            i,
                            bn,
                        )));
                models::count_model::lemma_counting_is_total(cm0, text_model, bad);
                assert(false);
            }
            return Err(errors::ModellingError::new(e.message()));
        },
    }
    match count_model.smooth(smoothing_type) {
        Ok(()) => {},
        Err(e) => {
            proof {
                if (*smoothing_type) is NoSmoothing {
                    assert(false);
                }
            }
            return Err(errors::ModellingError::new(e.message()));
        },
    }
    match probability_model.add_unigram_probabilities(&count_model) {
        Ok(()) => {},
        Err(e) => {
            return Err(errors::ModellingError::new(e.message()));
        },
    }
    proof {
        models::count_model::lemma_total_over_keys_sized(count_model, sigma.sym_views());
    }
    let ghost pm_mid = probability_model;
    match probability_model.add_ngram_probabilities(&count_model) {
        Ok(()) => {},
        Err(e) => {
            proof {
                if (*smoothing_type) is NoSmoothing {
                    lemma_unsmoothed_chain_ok(*sigma, count_model);
                    assert(false);
                }
            }
            return Err(errors::ModellingError::new(e.message()));
        },
    }
    proof {
        if (*smoothing_type) is NoSmoothing {
            let cmg = count_model;
            let uni = cmg.model_of_len(1);
            assert forall|k: int| 0 <= k < uni.keys().len() implies probability_model.has_key(
                #[trigger] uni.keys()[k],
            ) && probability_model.prob_of(uni.keys()[k]).num == uni.nums()[k]
                && probability_model.prob_of(uni.keys()[k]).den == uni.total_num() by {
                let key = uni.keys()[k];
                assert(key.len() == 1);
                assert forall|m: int| 2 <= m < cmg.max_len() + 1 implies !(
                #[trigger] cmg.model_of_len(m)).has_key(key) by {
                    if cmg.model_of_len(m).has_key(key) {
                        let t = choose|t: int|
                            0 <= t < cmg.model_of_len(m).keys().len() && cmg.model_of_len(
                                m,
                            ).keys()[t] == key;
                        assert(cmg.model_of_len(m).keys()[t].len() == m);
                        assert(false);
                    }
                }
                models::probability_model::lemma_untouched_intro(
                    cmg,
                    2,
                    cmg.max_len() + 1,
                    key,
                );
                assert(pm_mid.has_key(key));
            }
            lemma_trained_probabilities(
                *sigma,
                ngram_length as int,
                raw_text@,
                text_model,
                count_model,
                probability_model,
            );
        }
    }
    Ok(probability_model)
}

/// The chain rule is always computable over an unsmoothed counted model:
/// with all denominators one, every cross product is a plain numerator, and
/// totality over the alphabet puts every (n-1)-prefix in its universe.
proof fn lemma_unsmoothed_chain_ok(sigma: models::sigma::Sigma, cm: models::count_model::CountModel)
    requires
        sigma.wf(),
        cm.wf(),
        cm.total_over(sigma.sym_views()),
        forall|n: int|
            #![trigger cm.model_of_len(n)]
            1 <= n <= cm.max_len() ==> cm.model_of_len(n).denom() == 1,
    ensures
        models::probability_model::chain_ok(cm),
{
    let sv = sigma.sym_views();
    assert forall|n: int|
        #![trigger cm.model_of_len(n)]
        2 <= n <= cm.max_len() implies models::probability_model::chain_ok_len(cm, n) by {
        models::ngram_model::lemma_universe_totality(sv, n as nat);
        models::ngram_model::lemma_universe_totality(sv, (n - 1) as nat);
        let m = cm.model_of_len(n);
        let pmod = cm.model_of_len(n - 1);
        assert forall|k: int| 0 <= k < m.keys().len() implies {
            &&& pmod.has_key(models::probability_model::prefix_of(#[trigger] m.keys()[k]))
            &&& m.nums()[k] * pmod.denom() <= u128::MAX
            &&& m.denom() * pmod.num_of(models::probability_model::prefix_of(m.keys()[k]))
                <= u128::MAX
        } by {
            let w = m.keys()[k];
            assert(m.keys() == models::ngram_model::universe(sv, n as nat));
            assert(models::ngram_model::universe(sv, n as nat).contains(w));
            assert(w.len() == n);
            let prefix = models::probability_model::prefix_of(w);
            assert(prefix.len() == n - 1);
            assert(models::ngram_model::over_alphabet(prefix, sv)) by {
                assert forall|t: int| 0 <= t < prefix.len() implies sv.contains(
                    seq![#[trigger] prefix[t]],
                ) by {
                    assert(prefix[t] == w[t]);
                }
            }
            assert(pmod.keys() == models::ngram_model::universe(sv, (n - 1) as nat));
            assert(pmod.keys().contains(prefix));
            let nm = m.nums()[k] as int;
            let pn = pmod.num_of(prefix);
            assert(nm * 1 == nm) by (nonlinear_arith);
            assert(1 * pn == pn) by (nonlinear_arith);
            assert(pmod.nums().len() == pmod.keys().len());
            assert(pn <= u128::MAX) by {
                let c = choose|c: int|
                    0 <= c < pmod.keys().len() && #[trigger] pmod.keys()[c] == prefix;
            }
        }
    }
}

/// What an unsmoothed training run records: over the padded text, each
/// unigram's probability is its occurrence count over the window total, and
/// each longer n-gram's probability is its occurrence count over its
/// prefix's occurrence count — the chain rule on raw relative frequencies.
proof fn lemma_trained_probabilities(
    sigma: models::sigma::Sigma,
    n_max: int,
    raw: Seq<char>,
    text_model: models::text_model::TextModel,
    cm: models::count_model::CountModel,
    pm: models::probability_model::ProbabilityModel,
)
    requires
        sigma.wf(),
        n_max >= 1,
        cm.wf(),
        cm.keys_sized(),
        cm.max_len() == n_max,
        cm.total_over(sigma.sym_views()),
        text_model.wf(),
        text_model.sigma_views() == sigma.sym_views(),
        text_model.padded_views() == models::text_model::padded_text_views(sigma, n_max, raw),
        // counts are the occurrence counts of the padded text
        forall|n: int|
            #![trigger cm.model_of_len(n)]
            1 <= n <= n_max ==> cm.model_of_len(n).denom() == 1 && forall|k: int|
                0 <= k < cm.model_of_len(n).nums().len() ==> (#[trigger] cm.model_of_len(
                    n,
                ).nums()[k]) == models::occurrences(
                    text_model.padded_views(),
                    cm.model_of_len(n).keys()[k],
                    n,
                ),
        forall|n: int|
            #![trigger cm.model_of_len(n).total_num()]
            1 <= n <= n_max ==> cm.model_of_len(n).total_num()
                == models::text_model::window_count(text_model.padded_views(), n),
        // the probability model was filled from the counts
        pm.wf(),
        forall|k: int|
            0 <= k < cm.model_of_len(1).keys().len() ==> pm.has_key(
                #[trigger] cm.model_of_len(1).keys()[k],
            ) && pm.prob_of(cm.model_of_len(1).keys()[k]).num == cm.model_of_len(1).nums()[k]
                && pm.prob_of(cm.model_of_len(1).keys()[k]).den == cm.model_of_len(1).total_num(),
        forall|n: int, k: int|
            #![trigger cm.model_of_len(n).keys()[k]]
            2 <= n <= cm.max_len() && 0 <= k < cm.model_of_len(n).keys().len() ==> pm.has_key(
                cm.model_of_len(n).keys()[k],
            ) && pm.prob_of(cm.model_of_len(n).keys()[k])
                == models::probability_model::chain_prob(cm, n, k),
    ensures
        forall|w: Seq<char>|
            (#[trigger] w.len()) == 1 && models::ngram_model::over_alphabet(w, sigma.sym_views())
                ==> pm.has_key(w) && pm.prob_of(w).num == models::occurrences(
                text_model.padded_views(),
                w,
                1,
            ) && pm.prob_of(w).den == models::text_model::window_count(
                text_model.padded_views(),
                1,
            ),
        forall|w: Seq<char>|
            1 <= (#[trigger] w.len()) <= n_max && models::ngram_model::over_alphabet(
                w,
                sigma.sym_views(),
            ) ==> pm.has_key(w),
        forall|n: int, w: Seq<char>|
            #![trigger models::occurrences(text_model.padded_views(), w, n)]
            2 <= n <= n_max && w.len() == n && models::ngram_model::over_alphabet(
                w,
                sigma.sym_views(),
            ) ==> pm.prob_of(w).num == models::occurrences(
                text_model.padded_views(),
                w,
                n,
            ) && pm.prob_of(w).den == models::occurrences(
                text_model.padded_views(),
                models::probability_model::prefix_of(w),
                n - 1,
            ),
{
    let sv = sigma.sym_views();
    let parts = text_model.padded_views();
    assert forall|w: Seq<char>|
        (#[trigger] w.len()) == 1 && models::ngram_model::over_alphabet(w, sv) implies pm.has_key(
        w,
    ) && pm.prob_of(w).num == models::occurrences(text_model.padded_views(), w, 1)
        && pm.prob_of(w).den == models::text_model::window_count(
        text_model.padded_views(),
        1,
    ) by {
        models::ngram_model::lemma_universe_totality(sv, 1);
        let uni = cm.model_of_len(1);
        assert(uni.keys() == models::ngram_model::universe(sv, 1));
        assert(uni.keys().contains(w));
        let k = choose|k: int| 0 <= k < uni.keys().len() && uni.keys()[k] == w;
        assert(pm.has_key(uni.keys()[k]));
        assert(pm.prob_of(w).num == uni.nums()[k]);
        assert(uni.nums()[k] == models::occurrences(parts, w, 1));
    }
    assert forall|w: Seq<char>|
        1 <= (#[trigger] w.len()) <= n_max && models::ngram_model::over_alphabet(
            w,
            sigma.sym_views(),
        ) implies pm.has_key(w) by {
        let n = w.len() as int;
        models::ngram_model::lemma_universe_totality(sv, n as nat);
        assert(cm.model_of_len(n).keys() == models::ngram_model::universe(sv, n as nat));
        assert(cm.model_of_len(n).keys().contains(w));
        let k = choose|k: int|
            0 <= k < cm.model_of_len(n).keys().len() && #[trigger] cm.model_of_len(n).keys()[k]
                == w;
        assert(pm.has_key(cm.model_of_len(n).keys()[k]));
    }
    assert forall|n: int, w: Seq<char>|
        #![trigger models::occurrences(text_model.padded_views(), w, n)]
        2 <= n <= n_max && w.len() == n && models::ngram_model::over_alphabet(
            w,
            sigma.sym_views(),
        ) implies pm.has_key(w) && pm.prob_of(w).num == models::occurrences(
        text_model.padded_views(),
        w,
        n,
    ) && pm.prob_of(w).den == models::occurrences(
        text_model.padded_views(),
        models::probability_model::prefix_of(w),
        n - 1,
    ) by {
        models::ngram_model::lemma_universe_totality(sv, n as nat);
        models::ngram_model::lemma_universe_totality(sv, (n - 1) as nat);
        assert(cm.model_of_len(n).keys() == models::ngram_model::universe(sv, n as nat));
        assert(cm.model_of_len(n).keys().contains(w));
        let k = choose|k: int|
            0 <= k < cm.model_of_len(n).keys().len() && #[trigger] cm.model_of_len(n).keys()[k]
                == w;
        assert(pm.has_key(cm.model_of_len(n).keys()[k]));
        assert(pm.prob_of(cm.model_of_len(n).keys()[k])
            == models::probability_model::chain_prob(cm, n, k));
        assert(cm.model_of_len(n).nums()[k] == models::occurrences(
            text_model.padded_views(),
            cm.model_of_len(n).keys()[k],
            n,
        ));
        let prefix = models::probability_model::prefix_of(w);
        assert(prefix.len() == n - 1);
        assert(models::ngram_model::over_alphabet(prefix, sv)) by {
            assert forall|t: int| 0 <= t < prefix.len() implies sv.contains(
                seq![#[trigger] prefix[t]],
            ) by {
                assert(prefix[t] == w[t]);
            }
        }
        assert(cm.model_of_len(n - 1).keys() == models::ngram_model::universe(
            sv,
            (n - 1) as nat,
        ));
        assert(cm.model_of_len(n - 1).keys().contains(prefix));
        let j = choose|j: int|
            0 <= j < cm.model_of_len(n - 1).keys().len() && #[trigger] cm.model_of_len(
                n - 1,
            ).keys()[j] == prefix;
        assert(cm.model_of_len(n - 1).num_of(prefix) == cm.model_of_len(n - 1).nums()[j]) by {
            let c = choose|c: int|
                0 <= c < cm.model_of_len(n - 1).keys().len() && #[trigger] cm.model_of_len(
                    n - 1,
                ).keys()[c] == prefix;
            if c != j {
                assert(cm.model_of_len(n - 1).keys().no_duplicates());
                assert(false);
            }
        }
        assert(cm.model_of_len(n - 1).nums()[j] == models::occurrences(
            text_model.padded_views(),
            cm.model_of_len(n - 1).keys()[j],
            n - 1,
        ));
        let mn = cm.model_of_len(n).nums()[k] as int;
        let pn = cm.model_of_len(n - 1).num_of(prefix);
        assert(mn * 1 == mn) by (nonlinear_arith);
        assert(1 * pn == pn) by (nonlinear_arith);
        assert(pm.has_key(w));
        assert(pm.prob_of(w).num == models::occurrences(text_model.padded_views(), w, n));
        assert(pm.prob_of(w).den == models::occurrences(
            text_model.padded_views(),
            models::probability_model::prefix_of(w),
            n - 1,
        ));
    }
}

} // verus!
