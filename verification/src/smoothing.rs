//! Smoothing policies: redistribution of n-gram counts from seen to unseen
//! n-grams, applied to one length's count model in place.

pub mod errors;

use vstd::prelude::*;
use crate::models::ngram_model::{count_positive, count_zero, NGramModel};
use crate::smoothing::errors::SmoothingError;

verus! {

/// The available smoothing policies: leave counts unchanged; add one to
/// every count and rescale so that the sum of counts keeps its magnitude; or
/// move one count's worth of mass per seen type to the unseen types
/// (Witten-Bell).
#[derive(Clone, Copy, Debug, PartialEq, Eq, Structural)]
pub enum SmoothingType {
    NoSmoothing,
    AddOneSmoothing,
    WittenBellSmoothing,
}

/// Redistribute the counts of one length's model under the chosen policy.
/// The universe of n-grams is never changed; only the counts are rescaled.
pub fn smoothing(ngram_model: &mut NGramModel, type_: &SmoothingType) -> (r: Result<
    (),
    SmoothingError,
>)
    requires
        old(ngram_model).wf(),
    ensures
        final(ngram_model).wf(),
        final(ngram_model).keys() == old(ngram_model).keys(),
        r is Ok <==> smoothing_feasible(*old(ngram_model), *type_),
        r is Err ==> *final(ngram_model) == *old(ngram_model),
        match *type_ {
            SmoothingType::NoSmoothing => r is Ok && *final(ngram_model) == *old(ngram_model),
            SmoothingType::AddOneSmoothing => add_one_contract(
                *old(ngram_model),
                *final(ngram_model),
                r is Ok,
            ),
            SmoothingType::WittenBellSmoothing => witten_bell_contract(
                *old(ngram_model),
                *final(ngram_model),
                r is Ok,
            ),
        },
{
    match type_ {
        SmoothingType::NoSmoothing => Ok(()),
        SmoothingType::AddOneSmoothing => add_one_to_ngram_model(ngram_model),
        SmoothingType::WittenBellSmoothing => witten_bell_on_ngram_model(ngram_model),
    }
}

/// Add-one smoothing is representable: the rescaled denominator and total
/// stay within range (trivially so for an empty model).
pub open spec fn add_one_feasible(before: NGramModel) -> bool {
    let t = before.total_num();
    let d = before.denom();
    let v = before.keys().len() as int;
    v == 0 || (d * (t + v * d) <= u128::MAX && t * (t + v * d) <= u128::MAX)
}

/// Witten-Bell smoothing is representable: either there is nothing to move
/// (no seen or no unseen types), or the rescaled denominator and total stay
/// within range.
pub open spec fn witten_bell_feasible(before: NGramModel) -> bool {
    let t = before.total_num();
    let d = before.denom();
    let s = count_positive(before.nums());
    let u = count_zero(before.nums());
    s == 0 || u == 0 || (d * u * (t + s * d) <= u128::MAX && t * u * (t + s * d) <= u128::MAX)
}

/// The chosen policy is representable on the model: redistribution fails
/// only where its rescaled numbers would not fit.
pub open spec fn smoothing_feasible(before: NGramModel, t: SmoothingType) -> bool {
    match t {
        SmoothingType::NoSmoothing => true,
        SmoothingType::AddOneSmoothing => add_one_feasible(before),
        SmoothingType::WittenBellSmoothing => witten_bell_feasible(before),
    }
}

/// What add-one smoothing does to a count model: with `t` the sum of count
/// numerators, `d` the common denominator and `v` the vocabulary size, every
/// count `num / d` becomes `(num + d) * t` over `d * (t + v * d)` — that is,
/// `(count + 1) * total / (total + v)`. It fails, leaving the model
/// unchanged, exactly when the rescaled numbers cannot be represented.
pub open spec fn add_one_contract(before: NGramModel, after: NGramModel, ok: bool) -> bool {
    let t = before.total_num();
    let d = before.denom();
    let v = before.keys().len() as int;
    &&& (ok <==> add_one_feasible(before))
    &&& (ok && v > 0 ==> {
        &&& after.denom() == d * (t + v * d)
        &&& after.total_num() == t * (t + v * d)
        &&& forall|k: int| 0 <= k < v ==> after.nums()[k] == (before.nums()[k] + d) * t
    })
    &&& (ok && v == 0 ==> after == before)
}

/// What Witten-Bell smoothing does to a count model: with `t` the sum of
/// count numerators, `d` the common denominator, `s` the seen types and `u`
/// the unseen types, every seen count is scaled by `t / (t + s)` and every
/// unseen count becomes `(s / u)` times that factor. When nothing is seen or
/// nothing is unseen there is no mass to move, and the counts stay
/// unchanged. It fails, leaving the model unchanged, exactly when the
/// rescaled numbers cannot be represented.
pub open spec fn witten_bell_contract(before: NGramModel, after: NGramModel, ok: bool) -> bool {
    let t = before.total_num();
    let d = before.denom();
    let s = count_positive(before.nums());
    let u = count_zero(before.nums());
    &&& (ok <==> witten_bell_feasible(before))
    &&& (ok && s > 0 && u > 0 ==> {
        &&& after.denom() == d * u * (t + s * d)
        &&& after.total_num() == t * u * (t + s * d)
        &&& forall|k: int|
            0 <= k < before.nums().len() ==> after.nums()[k] == (if before.nums()[k] > 0 {
                before.nums()[k] * t * u
            } else {
                s * (t * d)
            })
    })
    &&& ((s == 0 || u == 0) && ok ==> after == before)
}

/// Add one to every n-gram count and rescale, to give unseen n-grams mass.
fn add_one_to_ngram_model(ngram_model: &mut NGramModel) -> (r: Result<(), SmoothingError>)
    requires
        old(ngram_model).wf(),
    ensures
        final(ngram_model).wf(),
        final(ngram_model).keys() == old(ngram_model).keys(),
        r is Err ==> *final(ngram_model) == *old(ngram_model),
        add_one_contract(*old(ngram_model), *final(ngram_model), r is Ok),
{
    ngram_model.apply_add_one()
}

/// Use the count of seen types to estimate the mass of unseen types.
fn witten_bell_on_ngram_model(ngram_model: &mut NGramModel) -> (r: Result<(), SmoothingError>)
    requires
        old(ngram_model).wf(),
    ensures
        final(ngram_model).wf(),
        final(ngram_model).keys() == old(ngram_model).keys(),
        r is Err ==> *final(ngram_model) == *old(ngram_model),
        witten_bell_contract(*old(ngram_model), *final(ngram_model), r is Ok),
{
    ngram_model.apply_witten_bell()
}

/// Add-one smoothing leaves no n-gram with a zero count when anything at all
/// was counted: with a positive total, every rescaled count is positive.
pub proof fn lemma_add_one_no_zero(before: NGramModel, after: NGramModel)
    requires
        before.wf(),
        after.wf(),
        after.keys() == before.keys(),
        before.total_num() > 0,
        add_one_contract(before, after, true),
    ensures
        forall|k: int| 0 <= k < after.nums().len() ==> after.nums()[k] > 0,
        after.denom() >= 1,
{
    let t = before.total_num();
    let d = before.denom();
    let v = before.keys().len() as int;
    assert(v > 0) by {
        if v == 0 {
            crate::models::lemma_sum_nums_nonneg(before.nums());
            assert(before.nums().len() == 0);
            assert(crate::models::sum_nums(before.nums()) == 0);
        }
    }
    assert forall|k: int| 0 <= k < after.nums().len() implies after.nums()[k] > 0 by {
        let n = before.nums()[k] as int;
        assert((n + d) * t > 0) by (nonlinear_arith)
            requires
                n >= 0,
                d >= 1,
                t >= 1,
        ;
    }
}

} // verus!
