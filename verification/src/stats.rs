//! Benjamini-Hochberg false-discovery-rate selection.
//!
//! The means, variances, t statistics and p-values themselves are floating
//! point computations done by the caller; this module takes p-values and the
//! step-up thresholds `(rank + 1) * q / n` as IEEE-754 encodings and decides
//! which hypotheses are rejected.
use vstd::prelude::*;
use crate::ieee::{lt, le, num_eq, lt_exec, le_exec, is_nan_exec};

verus! {

/// Does p-value `j` come before p-value `i` in the stable ascending order?
pub open spec fn precedes(ps: Seq<u64>, j: int, i: int) -> bool {
    lt(ps[j], ps[i]) || (j < i && num_eq(ps[j], ps[i]))
}

/// Number of `j < k` that precede `i`.
pub open spec fn count_preceding(ps: Seq<u64>, i: int, k: int) -> nat
    decreases k,
{
    if k <= 0 {
        0
    } else {
        count_preceding(ps, i, k - 1) + if precedes(ps, k - 1, i) {
            1nat
        } else {
            0nat
        }
    }
}

/// Position of p-value `i` when the p-values are sorted ascending, ties kept
/// in input order.
pub open spec fn rank(ps: Seq<u64>, i: int) -> nat {
    count_preceding(ps, i, ps.len() as int)
}

/// Does the p-value `j` pass the step-up test at its rank?
pub open spec fn passes(ps: Seq<u64>, th: Seq<u64>, j: int) -> bool {
    le(ps[j], th[rank(ps, j) as int])
}

/// Benjamini-Hochberg: with `k` the largest rank whose p-value is at most its
/// threshold, the hypotheses ranked `0..=k` are rejected.
pub open spec fn bh_rejects(ps: Seq<u64>, th: Seq<u64>, i: int) -> bool {
    exists|j: int| 0 <= j < ps.len() && #[trigger] passes(ps, th, j) && rank(ps, i) <= rank(ps, j)
}

proof fn lemma_count_bound(ps: Seq<u64>, i: int, k: int)
    requires
        0 <= i < ps.len(),
        0 <= k <= ps.len(),
    ensures
        count_preceding(ps, i, k) <= k,
        k > i ==> count_preceding(ps, i, k) <= k - 1,
    decreases k,
{
    if k > 0 {
        lemma_count_bound(ps, i, k - 1);
        if k - 1 == i {
            assert(!precedes(ps, i, i));
        }
    }
}

proof fn lemma_precedes_transitive(ps: Seq<u64>, m: int, j: int, i: int)
    requires
        precedes(ps, m, j),
        precedes(ps, j, i),
    ensures
        precedes(ps, m, i),
{
}

/// If `j` precedes `i`, everything counted before `j` is counted before `i`,
/// and `j` itself as well.
proof fn lemma_count_monotone(ps: Seq<u64>, j: int, i: int, k: int)
    requires
        0 <= j < ps.len(),
        0 <= i < ps.len(),
        precedes(ps, j, i),
        0 <= k <= ps.len(),
    ensures
        count_preceding(ps, j, k) + (if k > j { 1int } else { 0int }) <= count_preceding(ps, i, k),
    decreases k,
{
    if k > 0 {
        lemma_count_monotone(ps, j, i, k - 1);
        if precedes(ps, k - 1, j) {
            lemma_precedes_transitive(ps, k - 1, j, i);
        }
        if k - 1 == j {
            assert(!precedes(ps, j, j));
        }
    }
}

/// The rejections of Benjamini-Hochberg are closed downwards: a hypothesis
/// whose p-value passes its own threshold is rejected, and when a hypothesis
/// is rejected so is every one with a smaller p-value (or an equal p-value
/// that comes earlier).
pub proof fn law_bh_rejections_are_a_prefix(ps: Seq<u64>, th: Seq<u64>, i: int, j: int)
    requires
        0 <= i < ps.len(),
        0 <= j < ps.len(),
    ensures
        passes(ps, th, i) ==> bh_rejects(ps, th, i),
        bh_rejects(ps, th, i) && precedes(ps, j, i) ==> bh_rejects(ps, th, j),
{
    if bh_rejects(ps, th, i) && precedes(ps, j, i) {
        lemma_count_monotone(ps, j, i, ps.len() as int);
        let w = choose|w: int| 0 <= w < ps.len() && #[trigger] passes(ps, th, w) && rank(ps, i) <= rank(ps, w);
        assert(rank(ps, j) <= rank(ps, w));
    }
}

/// Position of `ps[i]` in the stable ascending order.
fn rank_exec(ps: &Vec<u64>, i: usize) -> (r: usize)
    requires
        i < ps@.len(),
    ensures
        r == rank(ps@, i as int),
        r < ps@.len(),
{
    let mut c: usize = 0;
    for k in 0..ps.len()
        invariant
            i < ps@.len(),
            c == count_preceding(ps@, i as int, k as int),
            c <= k,
    {
        proof {
            lemma_count_bound(ps@, i as int, k as int);
        }
        let pj = ps[k];
        let pi = ps[i];
        let eq = !is_nan_exec(pj) && !is_nan_exec(pi) && !lt_exec(pj, pi) && !lt_exec(pi, pj);
        if lt_exec(pj, pi) || (k < i && eq) {
            c = c + 1;
        }
    }
    proof {
        lemma_count_bound(ps@, i as int, ps@.len() as int);
    }
    c
}

/// Benjamini-Hochberg FDR correction: `true` at index `i` means "reject the
/// null hypothesis of test `i`". `thresholds[r]` is the step-up bound for rank
/// `r`, i.e. `(r + 1) * q / n` for a target false discovery rate `q`.
pub fn benjamini_hochberg(pvals: &Vec<u64>, thresholds: &Vec<u64>) -> (r: Vec<bool>)
    requires
        thresholds@.len() == pvals@.len(),
    ensures
        r@.len() == pvals@.len(),
        forall|i: int| 0 <= i < r@.len() ==> r@[i] == bh_rejects(pvals@, thresholds@, i),
{
    let n = pvals.len();
    let mut ranks: Vec<usize> = Vec::new();
    for i in 0..n
        invariant
            n == pvals@.len(),
            ranks@.len() == i,
            forall|j: int| 0 <= j < i ==> #[trigger] ranks@[j] == rank(pvals@, j) && ranks@[j] < n,
    {
        ranks.push(rank_exec(pvals, i));
    }
    // Largest rank whose p-value passes.
    let mut best: Option<usize> = None;
    for j in 0..n
        invariant
            n == pvals@.len(),
            thresholds@.len() == n,
            ranks@.len() == n,
            forall|m: int| 0 <= m < n ==> #[trigger] ranks@[m] == rank(pvals@, m) && ranks@[m] < n,
            best is None ==> forall|m: int| 0 <= m < j ==> !#[trigger] passes(pvals@, thresholds@, m),
            best matches Some(b) ==> (exists|m: int| 0 <= m < j && #[trigger] passes(pvals@, thresholds@, m) && rank(pvals@, m) == b)
                && forall|m: int| 0 <= m < j && #[trigger] passes(pvals@, thresholds@, m) ==> rank(pvals@, m) <= b,
    {
        let rj = ranks[j];
        assert(rj == rank(pvals@, j as int));
        assert(passes(pvals@, thresholds@, j as int) == le(pvals@[j as int], thresholds@[rj as int]));
        let ghost old_best = best;
        if le_exec(pvals[j], thresholds[rj]) {
            match best {
                None => {
                    best = Some(rj);
                },
                Some(b) => {
                    if rj > b {
                        best = Some(rj);
                    }
                },
            }
        }
        proof {
            match best {
                Some(b) => {
                    if old_best == best {
                        let m = choose|m: int| 0 <= m < j && #[trigger] passes(pvals@, thresholds@, m) && rank(pvals@, m) == b;
                        assert(0 <= m < j + 1 && passes(pvals@, thresholds@, m) && rank(pvals@, m) == b);
                    } else {
                        assert(passes(pvals@, thresholds@, j as int) && rank(pvals@, j as int) == b);
                    }
                },
                None => {},
            }
        }
    }
    let mut out: Vec<bool> = Vec::new();
    for i in 0..n
        invariant
            n == pvals@.len(),
            thresholds@.len() == n,
            ranks@.len() == n,
            forall|m: int| 0 <= m < n ==> #[trigger] ranks@[m] == rank(pvals@, m) && ranks@[m] < n,
            best is None ==> forall|m: int| 0 <= m < n ==> !#[trigger] passes(pvals@, thresholds@, m),
            best matches Some(b) ==> (exists|m: int| 0 <= m < n && #[trigger] passes(pvals@, thresholds@, m) && rank(pvals@, m) == b)
                && forall|m: int| 0 <= m < n && #[trigger] passes(pvals@, thresholds@, m) ==> rank(pvals@, m) <= b,
            out@.len() == i,
            forall|m: int| 0 <= m < i ==> #[trigger] out@[m] == bh_rejects(pvals@, thresholds@, m),
    {
        let reject = match best {
            None => false,
            Some(b) => ranks[i] <= b,
        };
        proof {
            match best {
                None => {},
                Some(b) => {
                    if ranks[i as int] <= b {
                        let m = choose|m: int| 0 <= m < n && #[trigger] passes(pvals@, thresholds@, m) && rank(pvals@, m) == b;
                        assert(bh_rejects(pvals@, thresholds@, i as int));
                    }
                },
            }
        }
        out.push(reject);
    }
    out
}

} // verus!
