use vstd::prelude::*;
use vstd::arithmetic::div_mod::{lemma_div_is_ordered, lemma_div_multiples_vanish};

use crate::classify::{ClassificationResult, CoverageScale};

verus! {

/// How many results were graded at level `l`.
pub open spec fn count_level(rs: Seq<ClassificationResult>, l: int) -> int
    decreases rs.len(),
{
    if rs.len() == 0 {
        0
    } else {
        count_level(rs.drop_last(), l) + if rs.last().level as int == l {
            1int
        } else {
            0int
        }
    }
}

/// The total weight of a result sequence on the given scale.
pub open spec fn sum_weights(scale: CoverageScale, rs: Seq<ClassificationResult>) -> int
    decreases rs.len(),
{
    if rs.len() == 0 {
        0
    } else {
        sum_weights(scale, rs.drop_last()) + scale.spec_weight(rs.last().level as int)
    }
}

/// Every result's level lies on the scale.
pub open spec fn results_valid(scale: CoverageScale, rs: Seq<ClassificationResult>) -> bool {
    forall|t: int| 0 <= t < rs.len() ==> (#[trigger] rs[t]).level < scale.spec_level_count()
}

/// The aggregate score: the achieved share of the highest possible total
/// weight, as a whole percentage (rounded down). An empty run scores zero —
/// a valid, fully "unscored" outcome, not an error.
pub open spec fn spec_score(scale: CoverageScale, rs: Seq<ClassificationResult>) -> int {
    if rs.len() == 0 {
        0
    } else {
        sum_weights(scale, rs) * 100 / (rs.len() * scale.spec_max_weight())
    }
}

proof fn lemma_count_level_bound(rs: Seq<ClassificationResult>, l: int)
    ensures
        0 <= count_level(rs, l) <= rs.len(),
    decreases rs.len(),
{
    if rs.len() > 0 {
        lemma_count_level_bound(rs.drop_last(), l);
    }
}

proof fn lemma_sum_weights_bound(scale: CoverageScale, rs: Seq<ClassificationResult>)
    requires
        scale.wf(),
        results_valid(scale, rs),
    ensures
        0 <= sum_weights(scale, rs) <= rs.len() * scale.spec_max_weight(),
    decreases rs.len(),
{
    let mw = scale.spec_max_weight();
    assert(scale.spec_levels()[0].weight < scale.spec_levels()[scale.spec_level_count()
        - 1].weight);
    if rs.len() == 0 {
    } else {
        assert(results_valid(scale, rs.drop_last())) by {
            assert(forall|t: int|
                0 <= t < rs.len() - 1 ==> rs.drop_last()[t] == (#[trigger] rs[t]));
        }
        lemma_sum_weights_bound(scale, rs.drop_last());
        let l = rs.last().level as int;
        assert(scale.spec_weight(l) <= mw) by {
            if l < scale.spec_level_count() - 1 {
                assert(scale.spec_levels()[l].weight < scale.spec_levels()[
                    scale.spec_level_count() - 1].weight);
            }
        }
        assert((rs.len() - 1) * mw + mw == rs.len() * mw) by (nonlinear_arith);
    }
}

proof fn lemma_sum_weights_all_max(scale: CoverageScale, rs: Seq<ClassificationResult>)
    requires
        scale.wf(),
        forall|t: int|
            0 <= t < rs.len() ==> (#[trigger] rs[t]).level as int == scale.spec_level_count() - 1,
    ensures
        sum_weights(scale, rs) == rs.len() * scale.spec_max_weight(),
    decreases rs.len(),
{
    let mw = scale.spec_max_weight();
    if rs.len() == 0 {
        assert(rs.len() * mw == 0) by (nonlinear_arith)
            requires
                rs.len() == 0,
        ;
    } else {
        assert(forall|t: int| 0 <= t < rs.len() - 1 ==> rs.drop_last()[t] == (#[trigger] rs[t]));
        lemma_sum_weights_all_max(scale, rs.drop_last());
        assert((rs.len() - 1) * mw + mw == rs.len() * mw) by (nonlinear_arith);
    }
}

/// A non-empty run in which every question reached the highest coverage
/// level scores exactly one hundred percent.
pub proof fn lemma_full_coverage_scores_full(scale: CoverageScale, rs: Seq<ClassificationResult>)
    requires
        scale.wf(),
        rs.len() > 0,
        forall|t: int|
            0 <= t < rs.len() ==> (#[trigger] rs[t]).level as int == scale.spec_level_count() - 1,
    ensures
        spec_score(scale, rs) == 100,
{
    let mw = scale.spec_max_weight();
    assert(scale.spec_levels()[0].weight < scale.spec_levels()[scale.spec_level_count()
        - 1].weight);
    lemma_sum_weights_all_max(scale, rs);
    assert(rs.len() * mw > 0) by (nonlinear_arith)
        requires
            rs.len() > 0,
            mw > 0,
    ;
    let d = rs.len() * mw;
    assert(d * 100 == 100 * d);
    lemma_div_multiples_vanish(100, d);
}

/// The aggregated outcome of one audit run: the classifications in their
/// original question order, the count of results at each coverage level,
/// and the percentage score.
#[derive(Debug)]
pub struct AuditReport {
    pub results: Vec<ClassificationResult>,
    pub counts: Vec<usize>,
    pub score_percent: u32,
}

/// Collects one classification result per question into a report: per-level
/// counts, and the achieved share of the highest possible total weight as a
/// percentage. A pure function of the result sequence; an empty run scores
/// zero with all counts zero.
pub fn aggregate(scale: &CoverageScale, results: Vec<ClassificationResult>) -> (rep: AuditReport)
    requires
        scale.wf(),
        results_valid(*scale, results@),
    ensures
        rep.results@ == results@,
        rep.counts@.len() == scale.spec_level_count(),
        forall|l: int|
            0 <= l < scale.spec_level_count() ==> (#[trigger] rep.counts@[l]) as int == count_level(
                results@,
                l,
            ),
        rep.score_percent as int == spec_score(*scale, results@),
        rep.score_percent <= 100,
{
    let levels = scale.level_count();
    let n = results.len();
    let mut counts: Vec<usize> = Vec::new();
    while counts.len() < levels
        invariant
            counts@.len() <= levels,
            forall|l: int| 0 <= l < counts@.len() ==> (#[trigger] counts@[l]) == 0,
        decreases levels - counts.len(),
    {
        counts.push(0);
    }
    let mut sum: u128 = 0;
    let mut t: usize = 0;
    proof {
        assert(results@.subrange(0, 0) =~= Seq::<ClassificationResult>::empty());
    }
    while t < n
        invariant
            t <= n,
            n == results@.len(),
            scale.wf(),
            results_valid(*scale, results@),
            levels == scale.spec_level_count(),
            counts@.len() == levels,
            forall|l: int|
                0 <= l < levels ==> (#[trigger] counts@[l]) as int == count_level(
                    results@.subrange(0, t as int),
                    l,
                ),
            sum as int == sum_weights(*scale, results@.subrange(0, t as int)),
        decreases n - t,
    {
        let ghost prefix = results@.subrange(0, t as int);
        let ghost prefix1 = results@.subrange(0, t + 1);
        proof {
            assert(prefix1.drop_last() =~= prefix);
            assert(prefix1.last() == results@[t as int]);
            assert(results_valid(*scale, prefix)) by {
                assert(forall|u: int| 0 <= u < t ==> prefix[u] == (#[trigger] results@[u]));
            }
            lemma_sum_weights_bound(*scale, prefix);
            let mw = scale.spec_max_weight();
            assert(t as int * mw + mw == (t as int + 1) * mw) by (nonlinear_arith);
            assert((t as int + 1) * mw <= n as int * mw) by (nonlinear_arith)
                requires
                    t as int + 1 <= n as int,
                    mw >= 0,
            ;
            assert(n as int * mw <= usize::MAX as int * u32::MAX as int) by (nonlinear_arith)
                requires
                    0 <= n as int <= usize::MAX as int,
                    0 <= mw <= u32::MAX as int,
            ;
        }
        let l = results[t].level;
        let c = counts[l];
        proof {
            lemma_count_level_bound(prefix, l as int);
        }
        counts.set(l, c + 1);
        proof {
            assert forall|ll: int| 0 <= ll < levels implies (#[trigger] counts@[ll]) as int
                == count_level(prefix1, ll) by {
                if ll == l as int {
                    assert(count_level(prefix1, ll) == count_level(prefix, ll) + 1);
                } else {
                    assert(count_level(prefix1, ll) == count_level(prefix, ll));
                }
            }
        }
        let w = scale.weight(l);
        sum = sum + w as u128;
        t = t + 1;
    }
    proof {
        assert(results@.subrange(0, n as int) =~= results@);
    }
    let score: u32;
    if n == 0 {
        score = 0;
    } else {
        let mw = scale.max_weight();
        proof {
            assert(scale.spec_levels()[0].weight < scale.spec_levels()[scale.spec_level_count()
                - 1].weight);
            assert(n as int * mw as int <= usize::MAX as int * u32::MAX as int) by (
            nonlinear_arith)
                requires
                    0 <= n as int <= usize::MAX as int,
                    0 <= mw as int <= u32::MAX as int,
            ;
        }
        let denom: u128 = (n as u128) * (mw as u128);
        proof {
            assert(n as int * mw as int > 0) by (nonlinear_arith)
                requires
                    n as int > 0,
                    mw as int > 0,
            ;
            lemma_sum_weights_bound(*scale, results@);
            assert(sum as int <= denom as int);
            assert(sum as int * 100 <= denom as int * 100);
            lemma_div_is_ordered(sum as int * 100, denom as int * 100, denom as int);
            lemma_div_multiples_vanish(100, denom as int);
            assert(denom as int * 100 == 100 * denom as int);
        }
        let q: u128 = (sum * 100) / denom;
        score = q as u32;
    }
    AuditReport { results, counts, score_percent: score }
}

} // verus!
