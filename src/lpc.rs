use vstd::prelude::*;

verus! {

/// The coefficient precision for a bit depth and a block size.
pub open spec fn best_precision(bps: u32, block_size: u32) -> int {
    if bps < 16 {
        if 2 + bps / 2 > 1 {
            2 + bps / 2
        } else {
            1
        }
    } else if bps == 16 {
        if block_size == 192 {
            7
        } else if block_size == 384 {
            8
        } else if block_size == 576 {
            9
        } else if block_size == 1152 {
            10
        } else if block_size == 2304 {
            11
        } else if block_size == 4608 {
            12
        } else {
            13
        }
    } else {
        if block_size == 384 {
            12
        } else if block_size == 1152 {
            13
        } else {
            14
        }
    }
}

/// A quantized coefficient, held as the bits of a signed 32-bit integer.
pub open spec fn coef(q: u32) -> int {
    (q as i32) as int
}

/// `Σ_{j=1..m} q_j · s[i−j]`.
pub open spec fn lpc_dot(s: Seq<i32>, q: Seq<u32>, i: int, m: nat) -> int
    decreases m,
{
    if m == 0 {
        0
    } else {
        lpc_dot(s, q, i, (m - 1) as nat) + coef(q[m - 1]) * s[i - m]
    }
}

/// The residual of sample `i`: the sample less the weighted sum of the
/// `order` samples before it, shifted right (rounding down) by `shift`.
pub open spec fn lpc_residual(s: Seq<i32>, q: Seq<u32>, order: nat, shift: nat, i: int) -> int {
    s[i] - lpc_dot(s, q, i, order) / (vstd::arithmetic::power2::pow2(shift) as int)
}

/// The residuals from sample `order` on.
pub open spec fn lpc_residuals(s: Seq<i32>, q: Seq<u32>, order: nat, shift: nat) -> Seq<int> {
    Seq::new((s.len() - order) as nat, |j: int| lpc_residual(s, q, order, shift, j + order))
}

/// The block is longer than the order, and there is a coefficient for each
/// past sample used.
pub open spec fn lpc_feasible(len: nat, n_coefs: nat, order: nat) -> bool {
    order < len && order <= n_coefs
}

/// Every residual fits in 32 signed bits.
pub open spec fn residuals_fit(r: Seq<int>) -> bool {
    forall|j: int| 0 <= j < r.len() ==> i32::MIN <= #[trigger] r[j] <= i32::MAX
}

proof fn lemma_floor_div_neg(a: int, d: int)
    requires
        a > 0,
        d > 0,
    ensures
        -((a + d - 1) / d) == (-a) / d,
{
    let q = (-a) / d;
    let r = (-a) % d;
    vstd::arithmetic::div_mod::lemma_fundamental_div_mod(-a, d);
    assert(0 <= r < d);
    assert(d * (-q) == -(d * q)) by (nonlinear_arith);
    assert(a + d - 1 == d * (-q) + (d - 1 - r));
    vstd::arithmetic::div_mod::lemma_div_multiples_vanish_fancy(-q, d - 1 - r, d);
}

pub struct VarPredictor;

impl VarPredictor {
    /// The residuals of a linear predictor with quantized coefficients
    /// `qlp_coefs` (each the bits of a signed integer) and shift `qlp_shift`,
    /// from sample `predictor_order` on.
    ///
    /// `None` when the block is not longer than the order, when there are
    /// fewer coefficients than the order, or when a residual does not fit in
    /// 32 signed bits.
    pub fn get_residuals(
        data: &Vec<i32>,
        qlp_coefs: &Vec<u32>,
        predictor_order: u32,
        qlp_shift: u32,
    ) -> (r: Option<Vec<i32>>)
        requires
            qlp_shift <= 31,
        ensures
            r.is_some() <==> lpc_feasible(data@.len(), qlp_coefs@.len(), predictor_order as nat)
                && residuals_fit(
                lpc_residuals(data@, qlp_coefs@, predictor_order as nat, qlp_shift as nat),
            ),
            r matches Some(v) ==> v@.len() == data@.len() - predictor_order,
            r matches Some(v) ==> forall|j: int|
                0 <= j < v@.len() ==> #[trigger] v@[j] as int == lpc_residuals(
                    data@,
                    qlp_coefs@,
                    predictor_order as nat,
                    qlp_shift as nat,
                )[j],
    {
        let order = predictor_order as usize;
        if data.len() <= order || qlp_coefs.len() < order {
            return None;
        }
        let ghost spec_res = lpc_residuals(data@, qlp_coefs@, order as nat, qlp_shift as nat);
        proof {
            vstd::arithmetic::power2::lemma2_to64();
        }
        let mut d: i128 = 1;
        let mut t: u32 = 0;
        while t < qlp_shift
            invariant
                t <= qlp_shift <= 31,
                d == vstd::arithmetic::power2::pow2(t as nat),
                d <= 2147483648,
            decreases qlp_shift - t,
        {
            proof {
                vstd::arithmetic::power2::lemma_pow2_unfold((t + 1) as nat);
                vstd::arithmetic::power2::lemma2_to64();
                if t + 1 < 31 {
                    vstd::arithmetic::power2::lemma_pow2_strictly_increases((t + 1) as nat, 31);
                }
            }
            d = d * 2;
            t = t + 1;
        }
        proof {
            vstd::arithmetic::power2::lemma_pow2_pos(qlp_shift as nat);
        }
        let mut out: Vec<i32> = Vec::new();
        let mut i: usize = order;
        while i < data.len()
            invariant
                order == predictor_order,
                order < data@.len(),
                order <= qlp_coefs@.len(),
                order <= i <= data@.len(),
                d == vstd::arithmetic::power2::pow2(qlp_shift as nat),
                0 < d <= 2147483648,
                spec_res == lpc_residuals(data@, qlp_coefs@, order as nat, qlp_shift as nat),
                out@.len() == i - order,
                forall|j: int| 0 <= j < out@.len() ==> #[trigger] out@[j] as int == spec_res[j],
                residuals_fit(spec_res.take((i - order) as int)),
            decreases data.len() - i,
        {
            let mut sum: i128 = 0;
            let mut m: usize = 0;
            while m < order
                invariant
                    order <= qlp_coefs@.len(),
                    order <= i < data@.len(),
                    m <= order,
                    order == predictor_order,
                    sum == lpc_dot(data@, qlp_coefs@, i as int, m as nat),
                    -4611686018427387904 * m <= sum <= 4611686018427387904 * m,
                    m <= u32::MAX,
                decreases order - m,
            {
                let c = #[verifier::truncate] (qlp_coefs[m] as i32);
                let x = data[i - 1 - m];
                proof {
                    assert(-4611686018427387904 <= (c as int) * (x as int) <= 4611686018427387904)
                        by (nonlinear_arith)
                        requires
                            -2147483648 <= c <= 2147483647,
                            -2147483648 <= x <= 2147483647,
                    ;
                }
                let term = (c as i128) * (x as i128);
                sum = sum + term;
                m = m + 1;
            }
            let pred: i128 = if sum >= 0 {
                sum / d
            } else {
                proof {
                    lemma_floor_div_neg(-sum, d as int);
                }
                -((-sum + d - 1) / d)
            };
            assert(pred == lpc_dot(data@, qlp_coefs@, i as int, order as nat) / (d as int));
            let res: i128 = data[i] as i128 - pred;
            assert(res == spec_res[i - order]);
            if res < i32::MIN as i128 || res > i32::MAX as i128 {
                assert(!residuals_fit(spec_res));
                return None;
            }
            out.push(res as i32);
            i = i + 1;
            assert(spec_res.take((i - order) as int) =~= spec_res.take((i - 1 - order) as int).push(
                res as int,
            ));
        }
        assert(spec_res.take((i - order) as int) =~= spec_res);
        Some(out)
    }

    /// The coefficient precision for a bit depth and a block size.
    pub fn get_best_precision(bps: u32, block_size: u32) -> (r: u32)
        ensures
            r as int == best_precision(bps, block_size),
    {
        if bps < 16 {
            if 2 + bps / 2 > 1 {
                2 + bps / 2
            } else {
                1
            }
        } else if bps == 16 {
            match block_size {
                192 => 7,
                384 => 8,
                576 => 9,
                1152 => 10,
                2304 => 11,
                4608 => 12,
                _ => 13,
            }
        } else {
            match block_size {
                384 => 12,
                1152 => 13,
                _ => 14,
            }
        }
    }
}

} // verus!
