//! The inferer: scores an unclassified text against every loaded
//! probability model and ranks the models by score.
//!
//! Scores are integer approximations of the binary logarithm of the
//! probability product: each n-gram contributes the difference of the
//! floored binary logarithms of its probability's numerator and
//! denominator, and a zero probability makes the whole score minus
//! infinity. The approximation is deterministic, so ranking does not depend
//! on scheduling.

pub mod errors;

use vstd::prelude::*;
use crate::inferer::errors::InfererError;
use crate::models::probability_model::ProbabilityModel;
use crate::models::text_model::{window_count, TextModel};
use crate::models::{string_views, window_at};
use crate::utils::{pair_views, sort_by_second_element};
use vstd::arithmetic::power::pow;

verus! {

/// A log-space score: minus infinity, or a finite magnitude.
#[derive(Clone, Copy, Debug, PartialEq, Eq, Structural)]
pub enum LogScore {
    NegInf,
    Val(i128),
}

/// `a` ranks at least as well as `b`.
pub open spec fn score_ge(a: LogScore, b: LogScore) -> bool {
    match (b, a) {
        (LogScore::NegInf, _) => true,
        (LogScore::Val(_), LogScore::NegInf) => false,
        (LogScore::Val(y), LogScore::Val(x)) => x >= y,
    }
}

/// The floored binary logarithm of `n`: the number of halvings until `n`
/// drops below two.
pub open spec fn ilog2(n: int) -> int
    decreases n,
{
    if n < 2 {
        0
    } else {
        1 + ilog2(n / 2)
    }
}

/// The score contribution of one n-gram's probability: minus infinity for a
/// zero probability, else the difference of the floored binary logarithms
/// of numerator and denominator.
pub open spec fn term_of(p: crate::models::Ratio) -> LogScore {
    if p.num == 0 {
        LogScore::NegInf
    } else {
        LogScore::Val((ilog2(p.num as int) - ilog2(p.den as int)) as i128)
    }
}

/// Score addition: minus infinity absorbs, finite magnitudes add.
pub open spec fn add_score(a: LogScore, b: LogScore) -> LogScore {
    match (a, b) {
        (LogScore::NegInf, _) => LogScore::NegInf,
        (_, LogScore::NegInf) => LogScore::NegInf,
        (LogScore::Val(x), LogScore::Val(y)) => LogScore::Val((x + y) as i128),
    }
}

/// The log-space score of a text's n-grams under a probability model, or
/// nothing when some n-gram has no entry or an undefined probability.
pub open spec fn spec_score(m: ProbabilityModel, ngrams: Seq<Seq<char>>) -> Option<LogScore>
    decreases ngrams.len(),
{
    if ngrams.len() == 0 {
        Some(LogScore::Val(0))
    } else {
        match spec_score(m, ngrams.drop_last()) {
            None => None,
            Some(acc) => {
                let key = ngrams.last();
                if !m.has_key(key) {
                    None
                } else {
                    let p = m.prob_of(key);
                    if p.den == 0 {
                        None
                    } else {
                        Some(add_score(acc, term_of(p)))
                    }
                }
            },
        }
    }
}

/// The n-grams of width `n` of a text model's padded symbol sequence.
pub open spec fn text_ngrams(t: TextModel, n: int) -> Seq<Seq<char>> {
    Seq::new(window_count(t.padded_views(), n) as nat, |i: int| window_at(t.padded_views(), i, n))
}

/// The (name, score) pair of every model, in model order.
pub open spec fn score_pairs(models: Seq<ProbabilityModel>, ngrams: Seq<Seq<char>>) -> Seq<
    (Seq<char>, LogScore),
> {
    Seq::new(models.len(), |i: int| (models[i].name@, spec_score(models[i], ngrams)->Some_0))
}

/// The floored binary logarithm of `x`.
fn ilog2_u128(x: u128) -> (r: u32)
    ensures
        r == ilog2(x as int),
        r <= 127,
{
    let mut m: u128 = x;
    let mut r: u32 = 0;
    let ghost mut p: int = 1;
    proof {
        vstd::arithmetic::power::lemma_pow0(2);
    }
    while m >= 2
        invariant
            ilog2(x as int) == r + ilog2(m as int),
            p == pow(2, r as nat),
            p * m <= x as int || (x == 0 && m == 0),
            m <= x,
            r <= 127,
        decreases m,
    {
        proof {
            vstd::arithmetic::power::lemma_pow_positive(2, r as nat);
            assert(p * (m as int / 2) * 2 <= p * m) by (nonlinear_arith)
                requires
                    p >= 1,
                    m >= 2,
            ;
            assert(p * 2 * (m as int / 2) == p * (m as int / 2) * 2) by (nonlinear_arith);
            if r >= 127 {
                // impossible: the value would need 128 doublings to reach x
                vstd::arithmetic::power2::lemma2_to64();
                vstd::arithmetic::power2::lemma_pow2_adds(64, 64);
                assert(vstd::arithmetic::power2::pow2(128) == 0x100000000000000000000000000000000)
                    by (nonlinear_arith)
                    requires
                        vstd::arithmetic::power2::pow2(128) == vstd::arithmetic::power2::pow2(64)
                            * vstd::arithmetic::power2::pow2(64),
                        vstd::arithmetic::power2::pow2(64) == 0x10000000000000000,
                ;
                vstd::arithmetic::power::lemma_pow1(2);
                vstd::arithmetic::power::lemma_pow_adds(2, 127, 1);
                assert(p * 2 == vstd::arithmetic::power::pow(2, 128));
                assert(p * m >= p * 2) by (nonlinear_arith)
                    requires
                        p >= 1,
                        m >= 2,
                ;
                assert(vstd::arithmetic::power2::pow2(128) == vstd::arithmetic::power::pow(2, 128));
                assert(false);
            }
        }
        m = m / 2;
        r = r + 1;
        proof {
            p = p * 2;
            vstd::arithmetic::power::lemma_pow1(2);
            vstd::arithmetic::power::lemma_pow_adds(2, (r - 1) as nat, 1);
        }
    }
    r
}

/// Infers a text's language by scoring it against every loaded model.
pub struct Inferer {
    models: Vec<ProbabilityModel>,
    ngram_length: usize,
    in_parallel: bool,
}

impl Inferer {
    /// The loaded probability models.
    pub closed spec fn models(&self) -> Seq<ProbabilityModel> {
        self.models@
    }

    /// The n-gram width used for scoring.
    pub closed spec fn ngram_len(&self) -> int {
        self.ngram_length as int
    }

    /// Whether the caller asked for parallel scheduling. Scheduling does not
    /// change the result: scoring is deterministic per model.
    pub closed spec fn parallel(&self) -> bool {
        self.in_parallel
    }

    /// Well-formedness: every loaded model is well-formed and the width is
    /// positive.
    pub open spec fn wf(&self) -> bool {
        &&& forall|i: int| 0 <= i < self.models().len() ==> (#[trigger] self.models()[i]).wf()
        &&& self.ngram_len() >= 1
    }

    /// An inferer over the given models.
    pub fn from_models(models: Vec<ProbabilityModel>, ngram_length: usize, in_parallel: bool) -> (r:
        Inferer)
        requires
            ngram_length >= 1,
        ensures
            r.models() == models@,
            r.ngram_len() == ngram_length,
            r.parallel() == in_parallel,
            (forall|i: int| 0 <= i < models@.len() ==> (#[trigger] models@[i]).wf()) ==> r.wf(),
    {
        Inferer { models, ngram_length, in_parallel }
    }

    /// Score the text against every model and rank the models, best first.
    /// Fails exactly when some model cannot score the text: an n-gram of the
    /// text has no entry, or an undefined probability, in that model.
    pub fn infer(self, unclassified: &TextModel) -> (r: Result<
        Vec<(String, LogScore)>,
        InfererError,
    >)
        requires
            self.wf(),
        ensures
            r is Ok <==> (forall|i: int|
                0 <= i < self.models().len() ==> spec_score(
                    #[trigger] self.models()[i],
                    text_ngrams(*unclassified, self.ngram_len()),
                ) is Some),
            r is Ok ==> {
                let pairs = score_pairs(
                    self.models(),
                    text_ngrams(*unclassified, self.ngram_len()),
                );
                &&& pair_views(r->Ok_0@).to_multiset() == pairs.to_multiset()
                &&& forall|i: int, j: int|
                    0 <= i <= j < r->Ok_0@.len() ==> score_ge(
                        (#[trigger] r->Ok_0@[i]).1,
                        (#[trigger] r->Ok_0@[j]).1,
                    )
            },
    {
        let ngrams: Vec<String> = unclassified.string_ngrams(self.ngram_length);
        proof {
            let tn = text_ngrams(*unclassified, self.ngram_len());
            assert forall|i: int| 0 <= i < string_views(ngrams@).len()
                implies string_views(ngrams@)[i] == tn[i] by {
                assert(string_views(ngrams@)[i] == ngrams@[i]@);
            }
            assert(string_views(ngrams@) =~= tn);
        }
        let prob_table = match self.successive_infer(&ngrams) {
            Ok(t) => t,
            Err(e) => {
                return Err(e);
            },
        };
        match sort_by_second_element(prob_table) {
            Ok(sorted) => Ok(sorted),
            Err(e) => Err(InfererError::new(e.message())),
        }
    }

    /// Score the text against the models one after the other, in model
    /// order.
    fn successive_infer(&self, ngrams: &Vec<String>) -> (r: Result<
        Vec<(String, LogScore)>,
        InfererError,
    >)
        requires
            self.wf(),
        ensures
            r is Ok <==> (forall|i: int|
                0 <= i < self.models().len() ==> spec_score(
                    #[trigger] self.models()[i],
                    string_views(ngrams@),
                ) is Some),
            r is Ok ==> pair_views(r->Ok_0@) == score_pairs(self.models(), string_views(ngrams@)),
    {
        let mut prob_table: Vec<(String, LogScore)> = Vec::new();
        let mut i: usize = 0;
        while i < self.models.len()
            invariant
                i <= self.models@.len(),
                self.wf(),
                prob_table@.len() == i,
                forall|t: int|
                    0 <= t < i ==> spec_score(
                        #[trigger] self.models()[t],
                        string_views(ngrams@),
                    ) is Some,
                forall|t: int|
                    0 <= t < i ==> (#[trigger] prob_table@[t]).0@ == self.models()[t].name@
                        && prob_table@[t].1 == spec_score(
                        self.models()[t],
                        string_views(ngrams@),
                    )->Some_0,
            decreases self.models@.len() - i,
        {
            let name = self.models[i].name.clone();
            match calculate_log_space_probability(&self.models[i], ngrams) {
                Ok(score) => {
                    prob_table.push((name, score));
                },
                Err(e) => {
                    return Err(e);
                },
            }
            i = i + 1;
        }
        proof {
            assert forall|t: int| 0 <= t < pair_views(prob_table@).len()
                implies pair_views(prob_table@)[t] == score_pairs(
                self.models(),
                string_views(ngrams@),
            )[t] by {
                assert(pair_views(prob_table@)[t] == (prob_table@[t].0@, prob_table@[t].1));
            }
            assert(pair_views(prob_table@) =~= score_pairs(self.models(), string_views(ngrams@)));
        }
        Ok(prob_table)
    }
}

/// The log-space score of the text's n-grams under one model: the sum of
/// the per-n-gram score terms. Fails exactly when some n-gram has no entry,
/// or an undefined probability, in the model.
pub fn calculate_log_space_probability(model: &ProbabilityModel, ngrams: &Vec<String>) -> (r:
    Result<LogScore, InfererError>)
    requires
        model.wf(),
    ensures
        match r {
            Ok(s) => spec_score(*model, string_views(ngrams@)) == Some(s),
            Err(_) => spec_score(*model, string_views(ngrams@)) is None,
        },
{
    let mut acc: i128 = 0;
    let mut neginf: bool = false;
    let mut i: usize = 0;
    while i < ngrams.len()
        invariant
            i <= ngrams@.len(),
            model.wf(),
            -127 * i <= acc <= 127 * i,
            spec_score(*model, string_views(ngrams@).subrange(0, i as int)) == Some(
                if neginf {
                    LogScore::NegInf
                } else {
                    LogScore::Val(acc)
                },
            ),
        decreases ngrams@.len() - i,
    {
        let ghost prefix = string_views(ngrams@).subrange(0, i as int);
        let ghost prefix1 = string_views(ngrams@).subrange(0, i + 1);
        proof {
            assert(prefix1.drop_last() =~= prefix);
            assert(prefix1.last() == ngrams@[i as int]@);
        }
        let p = match model.get(ngrams[i].as_str()) {
            Some(p) => p,
            None => {
                proof {
                    lemma_score_none_extends(*model, string_views(ngrams@), i + 1);
                }
                return Err(InfererError::new("unknown ngram"));
            },
        };
        if p.den == 0 {
            proof {
                lemma_score_none_extends(*model, string_views(ngrams@), i + 1);
            }
            return Err(InfererError::new("undefined probability"));
        }
        if p.num == 0 {
            neginf = true;
        } else {
            let a = ilog2_u128(p.num);
            let b = ilog2_u128(p.den);
            let term: i128 = a as i128 - b as i128;
            proof {
                let ii = i as int;
                assert(-127 * (ii + 1) <= acc + term <= 127 * (ii + 1)) by (nonlinear_arith)
                    requires
                        -127 * ii <= acc <= 127 * ii,
                        -127 <= term <= 127,
                ;
            }
            acc = acc + term;
        }
        i = i + 1;
        proof {
            let ii = i as int;
            assert(-127 * ii <= acc <= 127 * ii) by (nonlinear_arith)
                requires
                    -127 * (ii - 1) <= acc <= 127 * (ii - 1) || (-127 * ii <= acc <= 127 * ii),
                    ii >= 1,
            ;
        }
    }
    proof {
        assert(string_views(ngrams@).subrange(0, ngrams@.len() as int) =~= string_views(ngrams@));
    }
    if neginf {
        Ok(LogScore::NegInf)
    } else {
        Ok(LogScore::Val(acc))
    }
}

/// Once a prefix of the n-grams cannot be scored, the whole text cannot.
proof fn lemma_score_none_extends(m: ProbabilityModel, ngrams: Seq<Seq<char>>, from: int)
    requires
        0 <= from <= ngrams.len(),
        spec_score(m, ngrams.subrange(0, from)) is None,
    ensures
        spec_score(m, ngrams) is None,
    decreases ngrams.len() - from,
{
    if from == ngrams.len() {
        assert(ngrams.subrange(0, from) =~= ngrams);
    } else {
        let p = ngrams.subrange(0, from);
        let q = ngrams.subrange(0, from + 1);
        assert(q.drop_last() =~= p);
        lemma_score_none_extends(m, ngrams, from + 1);
    }
}

} // verus!

verus! {

/// Scheduling equivalence: each model's score is a deterministic function
/// of the model and the text's n-grams, so a parallel fan-out that collects
/// the per-model (name, score) pairs in any arrival order ranks the same
/// multiset of pairs as a successive run. Ranking only rearranges its
/// input, so the two ranked tables hold the same pairs.
pub proof fn lemma_parallel_successive_equivalence(
    collected: Seq<(Seq<char>, LogScore)>,
    ranked_parallel: Seq<(Seq<char>, LogScore)>,
    ranked_successive: Seq<(Seq<char>, LogScore)>,
    models: Seq<ProbabilityModel>,
    ngrams: Seq<Seq<char>>,
)
    requires
        collected.to_multiset() == score_pairs(models, ngrams).to_multiset(),
        ranked_parallel.to_multiset() == collected.to_multiset(),
        ranked_successive.to_multiset() == score_pairs(models, ngrams).to_multiset(),
    ensures
        ranked_parallel.to_multiset() == ranked_successive.to_multiset(),
{
}

} // verus!
