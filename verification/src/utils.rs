//! Utility helpers: exact probability division and ranking by score.

pub mod errors;

use vstd::prelude::*;
use vstd::multiset::Multiset;
use crate::inferer::{score_ge, LogScore};
use crate::models::Ratio;
use crate::utils::errors::UtilError;

verus! {

broadcast use vstd::prelude::Seq::to_multiset_ensures, vstd::multiset::group_multiset_axioms, vstd::multiset::lemma_multiset_empty_len;

/// The pair of each entry's name text and score.
pub open spec fn pair_views(s: Seq<(String, LogScore)>) -> Seq<(Seq<char>, LogScore)> {
    s.map_values(|p: (String, LogScore)| (p.0@, p.1))
}

/// The exact probability `nominator / denominator`. Fails exactly when the
/// denominator is zero.
pub fn get_probability(nominator: u128, denominator: u128) -> (r: Result<Ratio, UtilError>)
    ensures
        r is Ok <==> denominator > 0,
        r is Ok ==> r->Ok_0 == (Ratio { num: nominator, den: denominator }),
{
    if denominator > 0 {
        Ok(Ratio { num: nominator, den: denominator })
    } else {
        Err(UtilError::new("get_probability: Division by zero or negative number!"))
    }
}

/// Order a table of (name, score) pairs by score, best first. The result
/// holds the same pairs: ranking only rearranges them.
pub fn sort_by_second_element(vec: Vec<(String, LogScore)>) -> (r: Result<
    Vec<(String, LogScore)>,
    UtilError,
>)
    ensures
        r is Ok,
        pair_views(r->Ok_0@).to_multiset() == pair_views(vec@).to_multiset(),
        forall|i: int, j: int|
            0 <= i <= j < r->Ok_0@.len() ==> score_ge(
                (#[trigger] r->Ok_0@[i]).1,
                (#[trigger] r->Ok_0@[j]).1,
            ),
{
    let ghost whole = pair_views(vec@).to_multiset();
    let mut rest = vec;
    let mut out: Vec<(String, LogScore)> = Vec::new();
    proof {
        assert(pair_views(out@) =~= Seq::<(Seq<char>, LogScore)>::empty());
        assert(pair_views(out@).to_multiset().len() == 0);
        assert(pair_views(out@).to_multiset() =~= Multiset::<(Seq<char>, LogScore)>::empty());
        assert(pair_views(out@).to_multiset().add(pair_views(rest@).to_multiset()) =~= whole);
    }
    while rest.len() > 0
        invariant
            pair_views(out@).to_multiset().add(pair_views(rest@).to_multiset()) == whole,
            forall|i: int, j: int|
                0 <= i <= j < out@.len() ==> score_ge((#[trigger] out@[i]).1, (#[trigger] out@[j]).1),
            forall|i: int, j: int|
                0 <= i < out@.len() && 0 <= j < rest@.len() ==> score_ge(
                    (#[trigger] out@[i]).1,
                    (#[trigger] rest@[j]).1,
                ),
        decreases rest@.len(),
    {
        let mut mi: usize = 0;
        let mut k: usize = 1;
        while k < rest.len()
            invariant
                mi < k <= rest@.len(),
                rest@.len() > 0,
                forall|j: int| 0 <= j < k ==> score_ge(rest@[mi as int].1, (#[trigger] rest@[j]).1),
            decreases rest@.len() - k,
        {
            if score_gt_exec(rest[k].1, rest[mi].1) {
                mi = k;
            }
            k = k + 1;
        }
        let ghost prev_out = out@;
        let ghost prev_rest = rest@;
        let item = rest.remove(mi);
        out.push(item);
        proof {
            let pv_prev_rest = pair_views(prev_rest);
            let pv_rest = pair_views(rest@);
            assert forall|t: int| 0 <= t < pv_rest.len() implies pv_rest[t] == pv_prev_rest.remove(
                mi as int,
            )[t] by {
                if t < mi {
                    assert(rest@[t] == prev_rest[t]);
                } else {
                    assert(rest@[t] == prev_rest[t + 1]);
                }
            }
            assert(pv_rest =~= pv_prev_rest.remove(mi as int));
            let pv_out = pair_views(out@);
            assert forall|t: int| 0 <= t < pv_out.len() implies pv_out[t] == (
            if t < prev_out.len() {
                pair_views(prev_out)[t]
            } else {
                (item.0@, item.1)
            }) by {
                if t < prev_out.len() {
                    assert(out@[t] == prev_out[t]);
                }
            }
            assert(pv_out =~= pair_views(prev_out).push((item.0@, item.1)));
            assert(pv_prev_rest[mi as int] == (item.0@, item.1));
            let e = pv_prev_rest[mi as int];
            pair_views(prev_out).to_multiset_ensures();
            pv_prev_rest.to_multiset_ensures();
            assert(pair_views(prev_out).push(e).to_multiset() =~= pair_views(
                prev_out,
            ).to_multiset().insert(e));
            assert(pv_out.to_multiset() == pair_views(prev_out).push(e).to_multiset());
            assert(pv_prev_rest.remove(mi as int).to_multiset() =~= pv_prev_rest.to_multiset()
                .remove(e));
            assert(pv_rest.to_multiset() == pv_prev_rest.remove(mi as int).to_multiset());
            assert(pv_prev_rest.contains(e));
            assert(pv_prev_rest.to_multiset().count(e) > 0);
            assert(pv_out.to_multiset().add(pv_rest.to_multiset()) =~= whole);
        }
    }
    proof {
        assert(pair_views(rest@) =~= Seq::<(Seq<char>, LogScore)>::empty());
        assert(pair_views(out@).to_multiset().add(pair_views(rest@).to_multiset())
            =~= pair_views(out@).to_multiset());
    }
    Ok(out)
}

/// Whether `a` ranks strictly better than `b`.
fn score_gt_exec(a: LogScore, b: LogScore) -> (r: bool)
    ensures
        r ==> score_ge(a, b),
        !r ==> score_ge(b, a),
{
    match (a, b) {
        (LogScore::NegInf, _) => false,
        (LogScore::Val(_), LogScore::NegInf) => true,
        (LogScore::Val(x), LogScore::Val(y)) => x > y,
    }
}

} // verus!
