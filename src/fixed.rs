use vstd::prelude::*;

verus! {

/// Every sample fits in 32 signed bits.
pub open spec fn samples_fit(s: Seq<i64>) -> bool {
    forall|i: int| 0 <= i < s.len() ==> i32::MIN <= #[trigger] s[i] <= i32::MAX
}

/// The prediction of sample `i` by the fixed polynomial predictor of order `k`.
pub open spec fn fixed_prediction(s: Seq<i64>, k: nat, i: int) -> int {
    if k == 0 {
        0
    } else if k == 1 {
        s[i - 1] as int
    } else if k == 2 {
        2 * s[i - 1] - s[i - 2]
    } else if k == 3 {
        3 * s[i - 1] - 3 * s[i - 2] + s[i - 3]
    } else {
        4 * s[i - 1] - 6 * s[i - 2] + 4 * s[i - 3] - s[i - 4]
    }
}

/// The residuals of the fixed predictor of order `k`, from sample `k` on.
pub open spec fn fixed_residuals(s: Seq<i64>, k: nat) -> Seq<int> {
    Seq::new((s.len() - k) as nat, |j: int| s[j + k] - fixed_prediction(s, k, j + k))
}

/// A fixed predictor of order `k` applies to a block of `len` samples.
pub open spec fn order_feasible(len: nat, k: nat) -> bool {
    k <= 4 && k < len
}

/// The sum of the absolute values.
pub open spec fn abs_sum(r: Seq<int>) -> int
    decreases r.len(),
{
    if r.len() == 0 {
        0
    } else {
        abs_sum(r.drop_last()) + (if r.last() < 0 {
            -r.last()
        } else {
            r.last()
        })
    }
}

/// The cost of a fixed predictor order: the sum of its absolute residuals.
pub open spec fn order_score(s: Seq<i64>, k: nat) -> int {
    abs_sum(fixed_residuals(s, k))
}

/// `k` is a feasible order of least score, and no lower order scores as low.
pub open spec fn is_best_order(s: Seq<i64>, k: nat) -> bool {
    &&& order_feasible(s.len(), k)
    &&& forall|j: nat| order_feasible(s.len(), j) ==> order_score(s, k) <= #[trigger] order_score(s, j)
    &&& forall|j: nat| j < k ==> order_score(s, k) < #[trigger] order_score(s, j)
}

/// The sequence as integers.
pub open spec fn as_ints(s: Seq<i64>) -> Seq<int> {
    Seq::new(s.len(), |i: int| s[i] as int)
}

/// The residuals of order zero are the samples themselves.
pub proof fn lemma_order_zero_is_identity(s: Seq<i64>)
    ensures
        fixed_residuals(s, 0) == as_ints(s),
{
    assert(fixed_residuals(s, 0) =~= as_ints(s));
}

/// A feasible order of `k` gives `len(s) - k` residuals, the first of them
/// for sample `k`.
pub proof fn lemma_residuals_start_at_order(s: Seq<i64>, k: nat)
    requires
        order_feasible(s.len(), k),
    ensures
        fixed_residuals(s, k).len() == s.len() - k,
        fixed_residuals(s, k)[0] == s[k as int] - fixed_prediction(s, k, k as int),
{
}

proof fn lemma_abs_sum_push(r: Seq<int>, x: int)
    ensures
        abs_sum(r.push(x)) == abs_sum(r) + (if x < 0 {
            -x
        } else {
            x
        }),
{
    assert(r.push(x).drop_last() =~= r);
}

proof fn lemma_abs_sum_bound(r: Seq<int>, m: int)
    requires
        forall|i: int| 0 <= i < r.len() ==> -m <= #[trigger] r[i] <= m,
    ensures
        0 <= abs_sum(r) <= m * r.len(),
    decreases r.len(),
{
    if r.len() > 0 {
        lemma_abs_sum_bound(r.drop_last(), m);
        assert(m * (r.len() - 1) + m == m * r.len()) by (nonlinear_arith);
    }
}

pub struct FixedPredictor;

impl FixedPredictor {
    /// The order in 0..=4 whose residuals have the least sum of absolute
    /// values, the lowest such order on a tie; `None` for an empty block.
    pub fn best_predictor_order(data: &Vec<i64>) -> (r: Option<u8>)
        requires
            samples_fit(data@),
        ensures
            r.is_none() <==> data@.len() == 0,
            r matches Some(k) ==> is_best_order(data@, k as nat),
    {
        if data.len() == 0 {
            return None;
        }
        let mut best: u8 = 0;
        let mut best_score: u128 = 0;
        let mut k: u8 = 0;
        while k <= 4 && (k as usize) < data.len()
            invariant
                samples_fit(data@),
                data@.len() > 0,
                k <= 5,
                k as nat <= data@.len(),
                k > 0 ==> order_feasible(data@.len(), best as nat),
                k > 0 ==> best_score == order_score(data@, best as nat),
                k > 0 ==> best < k,
                forall|j: nat| j < k ==> order_score(data@, best as nat) <= #[trigger] order_score(
                    data@,
                    j,
                ),
                forall|j: nat| j < best ==> order_score(data@, best as nat) < #[trigger] order_score(
                    data@,
                    j,
                ),
            decreases 5 - k,
        {
            let res = Self::get_residuals(data, k);
            let residuals = match res {
                Some(v) => v,
                None => {
                    // the loop only tries feasible orders
                    proof {
                        assert(false);
                    }
                    return None;
                },
            };
            let ghost spec_res = fixed_residuals(data@, k as nat);
            let mut score: u128 = 0;
            let mut i: usize = 0;
            while i < residuals.len()
                invariant
                    residuals@.len() == spec_res.len(),
                    forall|t: int|
                        0 <= t < spec_res.len() ==> #[trigger] spec_res[t] == residuals@[t] as int,
                    forall|t: int|
                        0 <= t < spec_res.len() ==> -34359738368 <= #[trigger] spec_res[t]
                            <= 34359738368,
                    i <= residuals@.len(),
                    score == abs_sum(spec_res.take(i as int)),
                    score <= 34359738368 * i,
                    i <= usize::MAX,
                decreases residuals.len() - i,
            {
                let x = residuals[i];
                proof {
                    assert(spec_res.take(i + 1) =~= spec_res.take(i as int).push(spec_res[i as int]));
                    lemma_abs_sum_push(spec_res.take(i as int), spec_res[i as int]);
                    assert(34359738368 * i + 34359738368 == 34359738368 * (i + 1)) by (nonlinear_arith);
                    assert(34359738368 * (i + 1) <= 34359738368 * 18446744073709551616u128)
                        by (nonlinear_arith)
                        requires
                            i < 18446744073709551615u128,
                    ;
                }
                let mag: u128 = if x < 0 {
                    (-(x as i128)) as u128
                } else {
                    x as u128
                };
                score = score + mag;
                i = i + 1;
            }
            assert(spec_res.take(i as int) =~= spec_res);
            if k == 0 || score < best_score {
                best = k;
                best_score = score;
            }
            k = k + 1;
        }
        Some(best)
    }

    /// The residuals of the fixed predictor of order `predictor_order`, from
    /// sample `predictor_order` on.
    ///
    /// `None` when the order is above 4 or the block is not longer than it.
    pub fn get_residuals(data: &Vec<i64>, predictor_order: u8) -> (r: Option<Vec<i64>>)
        requires
            samples_fit(data@),
        ensures
            r.is_some() <==> order_feasible(data@.len(), predictor_order as nat),
            r matches Some(v) ==> v@.len() == data@.len() - predictor_order,
            r matches Some(v) ==> forall|j: int|
                0 <= j < v@.len() ==> #[trigger] v@[j] as int == fixed_residuals(
                    data@,
                    predictor_order as nat,
                )[j],
            r matches Some(v) ==> forall|j: int|
                0 <= j < v@.len() ==> -34359738368 <= #[trigger] v@[j] <= 34359738368,
    {
        let k = predictor_order as usize;
        if predictor_order > 4 || data.len() <= k {
            return None;
        }
        let ghost spec_res = fixed_residuals(data@, k as nat);
        let mut out: Vec<i64> = Vec::new();
        let mut i: usize = k;
        while i < data.len()
            invariant
                samples_fit(data@),
                k <= 4,
                k == predictor_order,
                k <= i <= data@.len(),
                spec_res == fixed_residuals(data@, k as nat),
                out@.len() == i - k,
                forall|j: int| 0 <= j < out@.len() ==> #[trigger] out@[j] as int == spec_res[j],
                forall|j: int| 0 <= j < out@.len() ==> -34359738368 <= #[trigger] out@[j] <= 34359738368,
            decreases data.len() - i,
        {
            let s0 = data[i];
            let pred: i64 = if k == 0 {
                0
            } else if k == 1 {
                data[i - 1]
            } else if k == 2 {
                2 * data[i - 1] - data[i - 2]
            } else if k == 3 {
                3 * data[i - 1] - 3 * data[i - 2] + data[i - 3]
            } else {
                4 * data[i - 1] - 6 * data[i - 2] + 4 * data[i - 3] - data[i - 4]
            };
            assert(pred == fixed_prediction(data@, k as nat, i as int));
            out.push(s0 - pred);
            i = i + 1;
        }
        Some(out)
    }
}

} // verus!
