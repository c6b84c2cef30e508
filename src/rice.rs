use vstd::prelude::*;

use vstd::arithmetic::power2::pow2;

use crate::bits::{bits_of_bytes, byte_bits, lemma_bits_of_bytes_push, zero_bits};

verus! {

/// The zigzag map from signed to unsigned: `2r` for `r ≥ 0`, `−2r − 1`
/// otherwise.
pub open spec fn zz(r: int) -> nat {
    if r >= 0 {
        (2 * r) as nat
    } else {
        (-2 * r - 1) as nat
    }
}

/// The inverse of the zigzag map.
pub open spec fn unzz(z: nat) -> int {
    if z % 2 == 0 {
        (z / 2) as int
    } else {
        -((z + 1) / 2)
    }
}

/// The zigzag map is undone by its inverse, and fixes 0 ↦ 0, −1 ↦ 1, 1 ↦ 2.
pub proof fn lemma_zigzag_round_trip(r: int)
    ensures
        unzz(zz(r)) == r,
        zz(r) >= 0,
        zz(0) == 0,
        zz(-1) == 1,
        zz(1) == 2,
{
}

/// The `m` low bits of `z`, most significant first.
pub open spec fn low_bits(z: nat, m: nat) -> Seq<bool> {
    Seq::new(m, |i: int| (z / pow2((m - 1 - i) as nat)) % 2 == 1)
}

/// The Rice code of `z` with parameter `m`: the quotient `z >> m` as that
/// many zero bits, a one bit, then the `m`-bit remainder.
pub open spec fn rice_code(z: nat, m: nat) -> Seq<bool> {
    zero_bits(z / pow2(m)) + seq![true] + low_bits(z, m)
}

/// The Rice codes of the zigzagged residuals, one after another.
pub open spec fn rice_stream(rs: Seq<i64>, m: nat) -> Seq<bool>
    decreases rs.len(),
{
    if rs.len() == 0 {
        Seq::empty()
    } else {
        rice_code(zz(rs[0] as int), m) + rice_stream(rs.skip(1), m)
    }
}

/// The exact number of bits of the Rice codes: `Σ (1 + m + (zigzag(r) >> m))`.
pub open spec fn exact_bits(rs: Seq<i64>, m: nat) -> nat
    decreases rs.len(),
{
    if rs.len() == 0 {
        0
    } else {
        1 + m + zz(rs[0] as int) / pow2(m) + exact_bits(rs.skip(1), m)
    }
}

/// The number of zero bits before the first one bit.
pub open spec fn leading_zeros(bits: Seq<bool>) -> nat
    decreases bits.len(),
{
    if bits.len() == 0 || bits[0] {
        0
    } else {
        1 + leading_zeros(bits.skip(1))
    }
}

/// The number that bits, most significant first, spell.
pub open spec fn bits_value(bits: Seq<bool>) -> nat
    decreases bits.len(),
{
    if bits.len() == 0 {
        0
    } else {
        2 * bits_value(bits.drop_last()) + (if bits.last() {
            1nat
        } else {
            0nat
        })
    }
}

/// Reads `count` Rice codes with parameter `m` from the front of `bits`.
pub open spec fn rice_decode(bits: Seq<bool>, m: nat, count: nat) -> Seq<int>
    decreases count,
{
    if count == 0 {
        Seq::empty()
    } else {
        let q = leading_zeros(bits);
        let rest = bits.skip((q + 1) as int);
        let z = q * pow2(m) + bits_value(rest.take(m as int));
        seq![unzz(z)] + rice_decode(rest.skip(m as int), m, (count - 1) as nat)
    }
}

proof fn lemma_leading_zeros(q: nat, tail: Seq<bool>)
    ensures
        leading_zeros(zero_bits(q) + seq![true] + tail) == q,
    decreases q,
{
    let s = zero_bits(q) + seq![true] + tail;
    if q > 0 {
        assert(s.skip(1) =~= zero_bits((q - 1) as nat) + seq![true] + tail);
        lemma_leading_zeros((q - 1) as nat, tail);
    }
}

proof fn lemma_low_bits_value(z: nat, m: nat)
    ensures
        bits_value(low_bits(z, m)) == z % pow2(m),
    decreases m,
{
    vstd::arithmetic::power2::lemma_pow2_pos(m);
    if m == 0 {
        assert(pow2(0) == 1) by {
            vstd::arithmetic::power2::lemma2_to64();
        }
    } else {
        let m1 = (m - 1) as nat;
        let h = z / 2;
        assert(low_bits(z, m).drop_last() =~= low_bits(h, m1)) by {
            assert forall|i: int| 0 <= i < m1 implies #[trigger] low_bits(z, m)[i] == low_bits(
                h,
                m1,
            )[i] by {
                let e = (m1 - 1 - i) as nat;
                vstd::arithmetic::power2::lemma_pow2_unfold(e + 1);
                vstd::arithmetic::power2::lemma_pow2_pos(e);
                vstd::arithmetic::div_mod::lemma_div_denominator(z as int, 2, pow2(e) as int);
                assert((m - 1 - i) as nat == e + 1);
            }
        }
        lemma_low_bits_value(h, m1);
        assert(pow2(0) == 1) by {
            vstd::arithmetic::power2::lemma2_to64();
        }
        assert(low_bits(z, m).last() == ((z / 1) % 2 == 1));
        assert(z / 1 == z);
        vstd::arithmetic::power2::lemma_pow2_unfold(m);
        vstd::arithmetic::power2::lemma_pow2_pos(m1);
        // z % 2^m == 2 * ((z / 2) % 2^(m-1)) + z % 2
        vstd::arithmetic::div_mod::lemma_fundamental_div_mod(z as int, 2);
        vstd::arithmetic::div_mod::lemma_fundamental_div_mod(h as int, pow2(m1) as int);
        vstd::arithmetic::div_mod::lemma_fundamental_div_mod(z as int, pow2(m) as int);
        vstd::arithmetic::div_mod::lemma_div_denominator(z as int, 2, pow2(m1) as int);
        let a = h / pow2(m1);
        let b = h % pow2(m1);
        assert(z == 2 * h + z % 2);
        assert(h == pow2(m1) * a + b);
        assert(z == a * pow2(m) + (2 * b + z % 2)) by (nonlinear_arith)
            requires
                z == 2 * h + z % 2,
                h == pow2(m1) * a + b,
                pow2(m) == 2 * pow2(m1),
        ;
        assert(2 * b + z % 2 < pow2(m));
        vstd::arithmetic::div_mod::lemma_fundamental_div_mod_converse(
            z as int,
            pow2(m) as int,
            a as int,
            (2 * b + z % 2) as int,
        );
    }
}

proof fn lemma_decode_code(z: nat, m: nat, tail: Seq<bool>)
    ensures
        ({
            let bits = rice_code(z, m) + tail;
            let q = leading_zeros(bits);
            let rest = bits.skip((q + 1) as int);
            &&& q * pow2(m) + bits_value(rest.take(m as int)) == z
            &&& rest.skip(m as int) == tail
        }),
{
    let q = z / pow2(m);
    let bits = rice_code(z, m) + tail;
    assert(bits =~= zero_bits(q) + seq![true] + (low_bits(z, m) + tail));
    lemma_leading_zeros(q, low_bits(z, m) + tail);
    let rest = bits.skip((q + 1) as int);
    assert(rest =~= low_bits(z, m) + tail);
    assert(rest.take(m as int) =~= low_bits(z, m));
    assert(rest.skip(m as int) =~= tail);
    lemma_low_bits_value(z, m);
    vstd::arithmetic::power2::lemma_pow2_pos(m);
    vstd::arithmetic::div_mod::lemma_fundamental_div_mod(z as int, pow2(m) as int);
    assert(q * pow2(m) == pow2(m) * q) by (nonlinear_arith);
}

proof fn lemma_decode_stream(rs: Seq<i64>, m: nat, tail: Seq<bool>)
    ensures
        rice_decode(rice_stream(rs, m) + tail, m, rs.len()) == Seq::new(
            rs.len(),
            |i: int| rs[i] as int,
        ),
    decreases rs.len(),
{
    if rs.len() > 0 {
        let code = rice_code(zz(rs[0] as int), m);
        let rest_stream = rice_stream(rs.skip(1), m);
        assert(rice_stream(rs, m) + tail =~= code + (rest_stream + tail));
        lemma_decode_code(zz(rs[0] as int), m, rest_stream + tail);
        lemma_decode_stream(rs.skip(1), m, tail);
        lemma_zigzag_round_trip(rs[0] as int);
        assert(rice_decode(rice_stream(rs, m) + tail, m, rs.len()) =~= Seq::new(
            rs.len(),
            |i: int| rs[i] as int,
        ));
    } else {
        assert(rice_decode(rice_stream(rs, m) + tail, m, rs.len()) =~= Seq::new(
            rs.len(),
            |i: int| rs[i] as int,
        ));
    }
}

/// A Rice decoder reads back every residual from the Rice codes, whatever
/// bits follow them, and the codes take exactly `Σ (1 + m + (zigzag(r) >> m))`
/// bits.
pub proof fn lemma_rice_round_trip(rs: Seq<i64>, m: nat, tail: Seq<bool>)
    ensures
        rice_decode(rice_stream(rs, m) + tail, m, rs.len()) == Seq::new(
            rs.len(),
            |i: int| rs[i] as int,
        ),
        rice_stream(rs, m).len() == exact_bits(rs, m),
{
    lemma_decode_stream(rs, m, tail);
    lemma_stream_len(rs, m);
}

proof fn lemma_stream_len(rs: Seq<i64>, m: nat)
    ensures
        rice_stream(rs, m).len() == exact_bits(rs, m),
    decreases rs.len(),
{
    if rs.len() > 0 {
        lemma_stream_len(rs.skip(1), m);
        let z = zz(rs[0] as int);
        vstd::arithmetic::power2::lemma_pow2_pos(m);
        assert(zero_bits(z / pow2(m)).len() == z / pow2(m));
        assert(rice_code(z, m).len() == z / pow2(m) + 1 + m);
    }
}

proof fn lemma_stream_push(rs: Seq<i64>, x: i64, m: nat)
    ensures
        rice_stream(rs.push(x), m) == rice_stream(rs, m) + rice_code(zz(x as int), m),
    decreases rs.len(),
{
    if rs.len() == 0 {
        assert(rs.push(x).skip(1) =~= Seq::<i64>::empty());
        assert(rs.push(x)[0] == x);
        assert(rice_stream(Seq::<i64>::empty(), m) == Seq::<bool>::empty());
        assert(rice_stream(rs, m) == Seq::<bool>::empty());
        assert(rice_stream(rs.push(x), m) =~= rice_stream(rs, m) + rice_code(zz(x as int), m));
    } else {
        assert(rs.push(x).skip(1) =~= rs.skip(1).push(x));
        lemma_stream_push(rs.skip(1), x, m);
        assert(rs.push(x)[0] == rs[0]);
        assert(rice_stream(rs.push(x), m) =~= rice_stream(rs, m) + rice_code(zz(x as int), m));
    }
}

/// The `n` bits of `acc` that wait for a byte, most significant first.
spec fn acc_bits(acc: u8, n: u8) -> Seq<bool> {
    Seq::new(n as nat, |i: int| (acc >> ((n - 1 - i) as u8)) & 1u8 == 1u8)
}

proof fn lemma_acc_shift(acc: u8, b: u8, n: u8, k: u8)
    by (bit_vector)
    requires
        n < 8,
        acc >> n == 0,
        b <= 1,
        k < n,
    ensures
        (((acc << 1u8) | b) >> (k + 1)) & 1u8 == (acc >> k) & 1u8,
{
}

proof fn lemma_acc_low(acc: u8, b: u8, n: u8)
    by (bit_vector)
    requires
        n < 8,
        acc >> n == 0,
        b <= 1,
    ensures
        (((acc << 1u8) | b) >> 0u8) & 1u8 == b,
        ((acc << 1u8) | b) >> (n + 1) == 0,
{
}

proof fn lemma_acc_flush(acc: u8, n: u8, k: u8)
    by (bit_vector)
    requires
        1 <= n < 8,
        acc >> n == 0,
        k < 8,
    ensures
        k >= 8 - n ==> ((acc << ((8 - n) as u8)) >> k) & 1u8 == (acc >> ((k - (8 - n)) as u8))
            & 1u8,
        k < 8 - n ==> ((acc << ((8 - n) as u8)) >> k) & 1u8 == 0u8,
{
}

/// Packs bits into bytes, most significant bit first.
struct BitWriter {
    bytes: Vec<u8>,
    acc: u8,
    n: u8,
}

impl BitWriter {
    spec fn bits(&self) -> Seq<bool> {
        bits_of_bytes(self.bytes@) + acc_bits(self.acc, self.n)
    }

    spec fn wf(&self) -> bool {
        self.n < 8 && self.acc >> self.n == 0
    }

    fn new() -> (w: Self)
        ensures
            w.wf(),
            w.bits() == Seq::<bool>::empty(),
    {
        let w = BitWriter { bytes: Vec::new(), acc: 0, n: 0 };
        assert(0u8 >> 0u8 == 0) by (bit_vector);
        assert(w.bits() =~= Seq::<bool>::empty());
        w
    }

    fn push_bit(&mut self, bit: bool)
        requires
            old(self).wf(),
        ensures
            final(self).wf(),
            final(self).bits() == old(self).bits().push(bit),
    {
        let b: u8 = if bit { 1 } else { 0 };
        let acc = self.acc;
        let n = self.n;
        let next = (acc << 1u8) | b;
        proof {
            lemma_acc_low(acc, b, n);
            assert(acc_bits(next, (n + 1) as u8) =~= acc_bits(acc, n).push(bit)) by {
                assert forall|i: int| 0 <= i < n implies #[trigger] acc_bits(next, (n + 1) as u8)[i]
                    == acc_bits(acc, n)[i] by {
                    lemma_acc_shift(acc, b, n, (n - 1 - i) as u8);
                }
            }
        }
        if n == 7 {
            proof {
                lemma_bits_of_bytes_push(self.bytes@, next);
                assert(acc_bits(next, 8) =~= byte_bits(next));
                assert(acc_bits(0, 0) =~= Seq::<bool>::empty());
                assert(0u8 >> 0u8 == 0) by (bit_vector);
            }
            self.bytes.push(next);
            self.acc = 0;
            self.n = 0;
        } else {
            self.acc = next;
            self.n = n + 1;
        }
    }

    fn push_zeros(&mut self, count: u64)
        requires
            old(self).wf(),
        ensures
            final(self).wf(),
            final(self).bits() == old(self).bits() + zero_bits(count as nat),
    {
        let mut j: u64 = 0;
        while j < count
            invariant
                self.wf(),
                j <= count,
                self.bits() == old(self).bits() + zero_bits(j as nat),
            decreases count - j,
        {
            self.push_bit(false);
            j = j + 1;
            assert(self.bits() =~= old(self).bits() + zero_bits(j as nat));
        }
    }

    fn finish(self) -> (r: (Vec<u8>, u8))
        requires
            self.wf(),
        ensures
            r.1 < 8,
            bits_of_bytes(r.0@) == self.bits() + zero_bits(r.1 as nat),
    {
        let mut bytes = self.bytes;
        let acc = self.acc;
        let n = self.n;
        if n == 0 {
            assert(self.bits() + zero_bits(0) =~= bits_of_bytes(bytes@));
            (bytes, 0)
        } else {
            let last = acc << (8 - n);
            proof {
                lemma_bits_of_bytes_push(bytes@, last);
                assert(byte_bits(last) =~= acc_bits(acc, n) + zero_bits((8 - n) as nat)) by {
                    assert forall|i: int| 0 <= i < 8 implies #[trigger] byte_bits(last)[i] == (
                    acc_bits(acc, n) + zero_bits((8 - n) as nat))[i] by {
                        lemma_acc_flush(acc, n, (7 - i) as u8);
                    }
                }
            }
            bytes.push(last);
            (bytes, 8 - n)
        }
    }
}

/// Residuals coded with one Rice parameter, packed most significant bit
/// first; the `extra_bits_len` low bits of the last byte are padding.
#[derive(Debug)]
pub struct RiceEncodedStream {
    pub stream: Vec<u8>,
    pub param: u8,
    pub extra_bits_len: u8,
}

/// The bytes hold the Rice codes of `rs` with parameter `m`, then zero
/// padding to the end of the last byte.
pub open spec fn encodes(s: RiceEncodedStream, rs: Seq<i64>, m: nat) -> bool {
    &&& s.param == m
    &&& s.extra_bits_len < 8
    &&& bits_of_bytes(s.stream@) == rice_stream(rs, m) + zero_bits(s.extra_bits_len as nat)
}

/// What `encode` returns decodes to the residuals, and its bits up to the
/// padding number exactly `Σ (1 + m + (zigzag(r) >> m))`.
pub proof fn lemma_encoded_stream_decodes(s: RiceEncodedStream, rs: Seq<i64>, m: nat)
    requires
        encodes(s, rs, m),
    ensures
        rice_decode(bits_of_bytes(s.stream@), m, rs.len()) == Seq::new(
            rs.len(),
            |i: int| rs[i] as int,
        ),
        8 * s.stream@.len() - s.extra_bits_len == exact_bits(rs, m),
{
    lemma_rice_round_trip(rs, m, zero_bits(s.extra_bits_len as nat));
    crate::bits::lemma_bits_of_bytes_len(s.stream@);
}

proof fn lemma_shr_bit(z: u64, k: u64)
    requires
        k < 64,
    ensures
        ((z >> k) & 1u64 == 1u64) == ((z as nat / pow2(k as nat)) % 2 == 1),
        z >> k == z as nat / pow2(k as nat),
{
    vstd::bits::lemma_u64_shr_is_div(z, k);
    let x = z >> k;
    assert((x & 1u64 == 1u64) == (x % 2 == 1)) by (bit_vector);
}

/// The largest `k` with `2^k` dividing `n` (zero for zero).
pub open spec fn v2(n: nat) -> nat
    decreases n,
{
    if n == 0 || n % 2 == 1 {
        0
    } else {
        1 + v2(n / 2)
    }
}

/// The highest partition order that a block of `n` samples allows:
/// `min(8, v2(n))`.
pub open spec fn max_partition_order(n: nat) -> nat {
    if v2(n) < 8 {
        v2(n)
    } else {
        8
    }
}

/// The samples in each of the `2^p` partitions of a block of `n`.
pub open spec fn part_size(n: nat, p: nat) -> nat {
    n / pow2(p)
}

/// Partition order `p` tiles a block of `n` samples whose predictor has order
/// `o`: `2^p` divides `n`, and the first partition keeps a sample after the
/// `o` warm-up samples.
pub open spec fn layout_ok(n: nat, o: nat, p: nat) -> bool {
    n % pow2(p) == 0 && part_size(n, p) > o
}

/// Where partition `t` starts among the `n − o` residuals.
pub open spec fn part_start(n: nat, o: nat, p: nat, t: nat) -> int {
    if t == 0 {
        0
    } else {
        t * part_size(n, p) - o
    }
}

/// How many residuals partition `t` holds: the first loses the warm-up.
pub open spec fn part_len(n: nat, o: nat, p: nat, t: nat) -> int {
    if t == 0 {
        part_size(n, p) - o
    } else {
        part_size(n, p) as int
    }
}

/// The residuals of partition `t`.
pub open spec fn partition(rs: Seq<i64>, n: nat, o: nat, p: nat, t: nat) -> Seq<i64> {
    rs.subrange(part_start(n, o, p, t), part_start(n, o, p, t) + part_len(n, o, p, t))
}

/// The residuals held by the first `c` partitions.
pub open spec fn parts_len(n: nat, o: nat, p: nat, c: nat) -> int
    decreases c,
{
    if c == 0 {
        0
    } else {
        parts_len(n, o, p, (c - 1) as nat) + part_len(n, o, p, (c - 1) as nat)
    }
}

proof fn lemma_parts_len(n: nat, o: nat, p: nat, c: nat)
    requires
        c >= 1,
    ensures
        parts_len(n, o, p, c) == c * part_size(n, p) - o,
        parts_len(n, o, p, c) == part_start(n, o, p, c),
    decreases c,
{
    assert(parts_len(n, o, p, c) == parts_len(n, o, p, (c - 1) as nat) + part_len(
        n,
        o,
        p,
        (c - 1) as nat,
    ));
    if c > 1 {
        lemma_parts_len(n, o, p, (c - 1) as nat);
        assert((c - 1) * part_size(n, p) + part_size(n, p) == c * part_size(n, p))
            by (nonlinear_arith);
    } else {
        assert(parts_len(n, o, p, 0) == 0);
        assert(1 * part_size(n, p) == part_size(n, p));
    }
}

/// The partitions of a valid layout hold `n − o` residuals in all.
pub proof fn lemma_partitions_cover(n: nat, o: nat, p: nat)
    requires
        layout_ok(n, o, p),
    ensures
        parts_len(n, o, p, pow2(p)) == n - o,
{
    vstd::arithmetic::power2::lemma_pow2_pos(p);
    lemma_parts_len(n, o, p, pow2(p));
    vstd::arithmetic::div_mod::lemma_fundamental_div_mod(n as int, pow2(p) as int);
    assert(pow2(p) * part_size(n, p) == part_size(n, p) * pow2(p)) by (nonlinear_arith);
}

/// The parameter in `0..=k` with the fewest bits, the lowest on a tie.
pub open spec fn best_param_upto(rs: Seq<i64>, k: nat) -> nat
    decreases k,
{
    if k == 0 {
        0
    } else {
        let b = best_param_upto(rs, (k - 1) as nat);
        if exact_bits(rs, k) < exact_bits(rs, b) {
            k
        } else {
            b
        }
    }
}

/// The best Rice parameter of a partition: in `0..=30`, with the fewest
/// bits, the lowest on a tie.
pub open spec fn best_param(rs: Seq<i64>) -> nat {
    best_param_upto(rs, 30)
}

/// `m` is a parameter in `0..=30` with the fewest bits, and every lower
/// parameter takes more.
pub open spec fn is_best_param(rs: Seq<i64>, m: nat) -> bool {
    &&& m <= 30
    &&& forall|k: nat| k <= 30 ==> exact_bits(rs, m) <= #[trigger] exact_bits(rs, k)
    &&& forall|k: nat| k < m ==> exact_bits(rs, m) < #[trigger] exact_bits(rs, k)
}

proof fn lemma_best_param_upto(rs: Seq<i64>, k: nat)
    ensures
        best_param_upto(rs, k) <= k,
        forall|j: nat| j <= k ==> exact_bits(rs, best_param_upto(rs, k)) <= #[trigger] exact_bits(rs, j),
        forall|j: nat| j < best_param_upto(rs, k) ==> exact_bits(rs, best_param_upto(rs, k)) < #[trigger] exact_bits(rs, j),
    decreases k,
{
    if k > 0 {
        lemma_best_param_upto(rs, (k - 1) as nat);
    }
}

/// The chosen parameter is the best one.
pub proof fn lemma_best_param_is_best(rs: Seq<i64>)
    ensures
        is_best_param(rs, best_param(rs)),
{
    lemma_best_param_upto(rs, 30);
}

/// The best parameter of each partition.
pub open spec fn best_params(rs: Seq<i64>, n: nat, o: nat, p: nat) -> Seq<u8> {
    Seq::new(pow2(p), |t: int| best_param(partition(rs, n, o, p, t as nat)) as u8)
}

/// The bits of the first `c` partitions, each with its best parameter.
pub open spec fn params_total(rs: Seq<i64>, n: nat, o: nat, p: nat, c: nat) -> nat
    decreases c,
{
    if c == 0 {
        0
    } else {
        let part = partition(rs, n, o, p, (c - 1) as nat);
        params_total(rs, n, o, p, (c - 1) as nat) + exact_bits(part, best_param(part))
    }
}

/// Some parameter needs the five-bit field.
pub open spec fn wide_params(ps: Seq<u8>) -> bool {
    exists|t: int| 0 <= t < ps.len() && ps[t] > 14
}

/// The bits that partition order `p` costs: the codes, the four-bit order
/// field, and a four- or five-bit parameter field per partition.
pub open spec fn order_cost(rs: Seq<i64>, n: nat, o: nat, p: nat) -> nat {
    params_total(rs, n, o, p, pow2(p)) + 4 + (if wide_params(best_params(rs, n, o, p)) {
        5nat
    } else {
        4nat
    }) * pow2(p)
}

/// The bits that any parameter in `0..=30` could need: `Σ (31 + zigzag(r))`.
pub open spec fn bit_budget(rs: Seq<i64>) -> nat
    decreases rs.len(),
{
    if rs.len() == 0 {
        0
    } else {
        31 + zz(rs[0] as int) + bit_budget(rs.skip(1))
    }
}

proof fn lemma_budget_concat(a: Seq<i64>, b: Seq<i64>)
    ensures
        bit_budget(a + b) == bit_budget(a) + bit_budget(b),
    decreases a.len(),
{
    if a.len() == 0 {
        assert(a + b =~= b);
    } else {
        assert((a + b).skip(1) =~= a.skip(1) + b);
        lemma_budget_concat(a.skip(1), b);
    }
}

proof fn lemma_exact_within_budget(rs: Seq<i64>, m: nat)
    requires
        m <= 30,
    ensures
        exact_bits(rs, m) <= bit_budget(rs),
    decreases rs.len(),
{
    if rs.len() > 0 {
        lemma_exact_within_budget(rs.skip(1), m);
        let z = zz(rs[0] as int);
        vstd::arithmetic::power2::lemma_pow2_pos(m);
        vstd::arithmetic::div_mod::lemma_div_is_ordered_by_denominator(z as int, 1, pow2(m) as int);
    }
}

/// Partition order `p` costs the fewest bits among the valid orders up to
/// the highest, and every lower valid order costs more.
pub open spec fn is_best_order(rs: Seq<i64>, n: nat, o: nat, p: nat) -> bool {
    &&& p <= max_partition_order(n)
    &&& layout_ok(n, o, p)
    &&& forall|q: nat|
        q <= max_partition_order(n) && layout_ok(n, o, q) ==> order_cost(rs, n, o, p)
            <= #[trigger] order_cost(rs, n, o, q)
    &&& forall|q: nat| q < p && layout_ok(n, o, q) ==> order_cost(rs, n, o, p) < #[trigger] order_cost(
        rs,
        n,
        o,
        q,
    )
}

proof fn lemma_take_budget(rs: Seq<i64>, e: int)
    requires
        0 <= e <= rs.len(),
    ensures
        bit_budget(rs.take(e)) <= bit_budget(rs),
{
    assert(rs =~= rs.take(e) + rs.skip(e));
    lemma_budget_concat(rs.take(e), rs.skip(e));
}

proof fn lemma_pow2_u64(p: nat)
    requires
        p >= 64,
    ensures
        pow2(p) > u64::MAX,
{
    vstd::arithmetic::power2::lemma2_to64_rest();
    if p > 64 {
        vstd::arithmetic::power2::lemma_pow2_strictly_increases(64, p);
    }
}

/// A copy of `v[start..start + len]`.
fn copy_range(v: &Vec<i64>, start: usize, len: usize) -> (r: Vec<i64>)
    requires
        start + len <= v@.len(),
    ensures
        r@ == v@.subrange(start as int, start + len),
{
    let mut out: Vec<i64> = Vec::new();
    let mut i: usize = 0;
    while i < len
        invariant
            start + len <= v.len(),
            i <= len,
            out@ == v@.subrange(start as int, start + i),
        decreases len - i,
    {
        out.push(v[start + i]);
        i = i + 1;
        assert(out@ =~= v@.subrange(start as int, start + i));
    }
    out
}

/// The best parameter of a partition and its bits.
fn best_param_of(part: &Vec<i64>) -> (r: (u8, u64))
    requires
        bit_budget(part@) <= u64::MAX,
    ensures
        r.0 as nat == best_param(part@),
        r.0 <= 30,
        r.1 == exact_bits(part@, r.0 as nat),
{
    proof {
        lemma_exact_within_budget(part@, 0);
        lemma_best_param_upto(part@, 30);
    }
    let n = part.len() as u64;
    let mut best: u8 = 0;
    let mut best_bits = RiceEncoderOptions::bits_in_partition_exact(0, n, part);
    let mut k: u8 = 1;
    while k <= 30
        invariant
            1 <= k <= 31,
            n == part@.len(),
            bit_budget(part@) <= u64::MAX,
            best as nat == best_param_upto(part@, (k - 1) as nat),
            best_bits == exact_bits(part@, best as nat),
        decreases 31 - k,
    {
        proof {
            lemma_exact_within_budget(part@, k as nat);
        }
        let bits = RiceEncoderOptions::bits_in_partition_exact(k, n, part);
        if bits < best_bits {
            best = k;
            best_bits = bits;
        }
        k = k + 1;
    }
    (best, best_bits)
}

/// A copy of partition `t`, whose residuals start at `start` and number
/// `len`.
fn copy_partition(residuals: &Vec<i64>, n: u64, o: u64, p: u8, size: u64, t: u64) -> (r: (
    Vec<i64>,
    u64,
    u64,
))
    requires
        layout_ok(n as nat, o as nat, p as nat),
        residuals@.len() == n - o,
        size == part_size(n as nat, p as nat),
        t < pow2(p as nat),
    ensures
        r.0@ == partition(residuals@, n as nat, o as nat, p as nat, t as nat),
        r.1 == part_start(n as nat, o as nat, p as nat, t as nat),
        r.2 == part_len(n as nat, o as nat, p as nat, t as nat),
        r.1 + r.2 == part_start(n as nat, o as nat, p as nat, (t + 1) as nat),
        r.1 + r.2 <= residuals@.len(),
{
    proof {
        vstd::arithmetic::power2::lemma_pow2_pos(p as nat);
        vstd::arithmetic::div_mod::lemma_fundamental_div_mod(n as int, pow2(p as nat) as int);
        assert(t * size + size <= pow2(p as nat) * size) by (nonlinear_arith)
            requires
                t < pow2(p as nat),
        ;
        assert(pow2(p as nat) * size == n);
        assert((t + 1) * size == t * size + size) by (nonlinear_arith);
        if t > 0 {
            lemma_parts_len(n as nat, o as nat, p as nat, t as nat);
        }
        lemma_parts_len(n as nat, o as nat, p as nat, (t + 1) as nat);
        if t >= 1 {
            assert(t * size >= size) by (nonlinear_arith)
                requires
                    t >= 1,
            ;
        }
    }
    let rlen = residuals.len();
    let start: u64 = if t == 0 {
        0
    } else {
        t * size - o
    };
    let len: u64 = if t == 0 {
        size - o
    } else {
        size
    };
    let part = copy_range(residuals, start as usize, len as usize);
    (part, start, len)
}

/// A Rice coder for blocks of `num_samples` samples whose residuals come from
/// a predictor of order `predictor_order`.
pub struct RiceEncoderOptions {
    num_samples: u64,
    predictor_order: u8,
}

impl RiceEncoderOptions {
    /// The block size.
    pub closed spec fn num_samples(&self) -> nat {
        self.num_samples as nat
    }

    /// The predictor order: the warm-up samples that the first partition
    /// lacks.
    pub closed spec fn predictor_order(&self) -> nat {
        self.predictor_order as nat
    }

    /// A coder for blocks of `num_samples` samples and a predictor of order
    /// `predictor_order`.
    pub fn new(num_samples: u64, predictor_order: u8) -> (r: Self)
        ensures
            r.num_samples() == num_samples,
            r.predictor_order() == predictor_order,
    {
        Self { num_samples: num_samples, predictor_order: predictor_order }
    }

    /// The lowest partition order.
    pub fn min_rice_partition_order() -> (r: u8)
        ensures
            r == 0,
    {
        0
    }

    /// The highest partition order for a block size: `min(8, v2(block_size))`.
    pub fn max_rice_partition_order(block_size: u64) -> (r: u8)
        ensures
            r as nat == max_partition_order(block_size as nat),
    {
        if block_size == 0 {
            return 0;
        }
        let mut cur = block_size;
        let mut p: u8 = 0;
        while p < 8 && cur % 2 == 0
            invariant
                cur > 0,
                p <= 8,
                v2(block_size as nat) == p + v2(cur as nat),
            decreases 8 - p,
        {
            cur = cur / 2;
            p = p + 1;
        }
        p
    }

    /// The zigzag map on 64-bit integers.
    pub fn zigzag(num: i64) -> (r: u64)
        ensures
            r == zz(num as int),
    {
        if num >= 0 {
            (num as u64) * 2
        } else {
            ((-(num + 1)) as u64) * 2 + 1
        }
    }

    /// The exact bits of the Rice codes of a partition's residuals with
    /// parameter `rice_param`: `Σ (1 + rice_param + (zigzag(r) >> rice_param))`.
    pub fn bits_in_partition_exact(rice_param: u8, n_partition_samples: u64, residuals: &Vec<i64>) -> (r: u64)
        requires
            rice_param <= 30,
            n_partition_samples == residuals@.len(),
            exact_bits(residuals@, rice_param as nat) <= u64::MAX,
        ensures
            r == exact_bits(residuals@, rice_param as nat),
    {
        let m = rice_param as u64;
        let ghost rs = residuals@;
        let mut acc: u64 = 0;
        let mut i: usize = 0;
        assert(rs.skip(0) =~= rs);
        while i < residuals.len()
            invariant
                m == rice_param,
                m <= 30,
                rs == residuals@,
                i <= rs.len(),
                exact_bits(rs, m as nat) <= u64::MAX,
                acc + exact_bits(rs.skip(i as int), m as nat) == exact_bits(rs, m as nat),
            decreases residuals.len() - i,
        {
            let z = Self::zigzag(residuals[i]);
            proof {
                lemma_shr_bit(z, m);
                assert(rs.skip(i as int).skip(1) =~= rs.skip(i + 1));
            }
            acc = acc + 1 + m + (z >> m);
            i = i + 1;
        }
        acc
    }

    /// The estimate `n·(1 + rice_param) + (Σ zigzag(r)) >> rice_param` of a
    /// partition's bits from the sum of its zigzagged residuals.
    pub fn bits_in_partition_sums(rice_param: u8, n_partition_samples: u64, abs_residual_sum: u64) -> (r: u64)
        requires
            rice_param <= 30,
            n_partition_samples as nat * (1 + rice_param as nat) + abs_residual_sum as nat / pow2(rice_param as nat) <= u64::MAX,
        ensures
            r == n_partition_samples as nat * (1 + rice_param as nat) + abs_residual_sum as nat / pow2(rice_param as nat),
    {
        let m = rice_param as u64;
        proof {
            lemma_shr_bit(abs_residual_sum, m);
            assert(0 <= n_partition_samples * (1 + m)) by (nonlinear_arith);
        }
        n_partition_samples * (1 + m) + (abs_residual_sum >> m)
    }

    /// The best parameter of each of the `2^partition_order` partitions and
    /// the bits of their codes in all.
    ///
    /// `None` when the partition order does not tile the block (see
    /// `layout_ok`) or the residuals are not `num_samples − predictor_order`.
    pub fn best_parameters(&self, partition_order: u8, residuals: &Vec<i64>) -> (r: Option<(Vec<u8>, u64)>)
        requires
            bit_budget(residuals@) <= u64::MAX,
        ensures
            r.is_some() <==> layout_ok(self.num_samples(), self.predictor_order(), partition_order as nat)
                && residuals@.len() == self.num_samples() - self.predictor_order(),
            r matches Some((ps, total)) ==> ps@ == best_params(
                residuals@,
                self.num_samples(),
                self.predictor_order(),
                partition_order as nat,
            ),
            r matches Some((ps, total)) ==> total == params_total(
                residuals@,
                self.num_samples(),
                self.predictor_order(),
                partition_order as nat,
                pow2(partition_order as nat),
            ),
    {
        let n = self.num_samples;
        let o = self.predictor_order as u64;
        let p = partition_order;
        let ghost rs = residuals@;
        if p >= 64 {
            proof {
                lemma_pow2_u64(p as nat);
                vstd::arithmetic::div_mod::lemma_basic_div(n as int, pow2(p as nat) as int);
            }
            return None;
        }
        let mut parts: u64 = 1;
        let mut e: u8 = 0;
        proof {
            vstd::arithmetic::power2::lemma2_to64();
        }
        while e < p
            invariant
                e <= p < 64,
                parts == pow2(e as nat),
            decreases p - e,
        {
            proof {
                vstd::arithmetic::power2::lemma_pow2_unfold((e + 1) as nat);
                vstd::arithmetic::power2::lemma2_to64();
                vstd::arithmetic::power2::lemma2_to64_rest();
                if e + 1 < 63 {
                    vstd::arithmetic::power2::lemma_pow2_strictly_increases((e + 1) as nat, 63);
                }
            }
            parts = parts * 2;
            e = e + 1;
        }
        proof {
            vstd::arithmetic::power2::lemma_pow2_pos(p as nat);
        }
        if n % parts != 0 || n / parts <= o || residuals.len() as u64 != n - o {
            return None;
        }
        let size = n / parts;
        let mut ps: Vec<u8> = Vec::new();
        let mut total: u64 = 0;
        let mut t: u64 = 0;
        while t < parts
            invariant
                layout_ok(n as nat, o as nat, p as nat),
                rs == residuals@,
                rs.len() == n - o,
                n == self.num_samples(),
                o == self.predictor_order(),
                parts == pow2(p as nat),
                size == part_size(n as nat, p as nat),
                t <= parts,
                bit_budget(rs) <= u64::MAX,
                ps@ == best_params(rs, n as nat, o as nat, p as nat).take(t as int),
                total == params_total(rs, n as nat, o as nat, p as nat, t as nat),
                0 <= part_start(n as nat, o as nat, p as nat, t as nat) <= rs.len(),
                total <= bit_budget(rs.take(part_start(n as nat, o as nat, p as nat, t as nat))),
            decreases parts - t,
        {
            let (part, start, len) = copy_partition(residuals, n, o, p, size, t);
            proof {
                let e1 = start as int;
                let e2 = start + len;
                assert(rs.take(e2) =~= rs.take(e1) + part@);
                lemma_budget_concat(rs.take(e1), part@);
                lemma_take_budget(rs, e2);
            }
            let (m, bits) = best_param_of(&part);
            proof {
                lemma_exact_within_budget(part@, m as nat);
            }
            ps.push(m);
            total = total + bits;
            t = t + 1;
            assert(ps@ =~= best_params(rs, n as nat, o as nat, p as nat).take(t as int));
        }
        assert(ps@ =~= best_params(rs, n as nat, o as nat, p as nat));
        Some((ps, total))
    }

    /// The partition order that costs the fewest bits, the lowest on a tie,
    /// with the best parameter of each of its partitions.
    pub fn best_partition_and_params(&self, residuals: &Vec<i64>) -> (r: (Vec<u8>, u8))
        requires
            layout_ok(self.num_samples(), self.predictor_order(), 0),
            residuals@.len() == self.num_samples() - self.predictor_order(),
            bit_budget(residuals@) <= u64::MAX,
        ensures
            is_best_order(residuals@, self.num_samples(), self.predictor_order(), r.1 as nat),
            r.0@ == best_params(residuals@, self.num_samples(), self.predictor_order(), r.1 as nat),
    {
        let ghost rs = residuals@;
        let ghost n = self.num_samples();
        let ghost o = self.predictor_order();
        let max_p = Self::max_rice_partition_order(self.num_samples);
        let mut best_ps: Vec<u8> = Vec::new();
        let mut best_p: u8 = 0;
        let mut best_cost: u128 = 0;
        let mut q: u8 = Self::min_rice_partition_order();
        while q <= max_p
            invariant
                rs == residuals@,
                rs.len() == n - o,
                n == self.num_samples(),
                o == self.predictor_order(),
                layout_ok(n, o, 0),
                bit_budget(rs) <= u64::MAX,
                max_p == max_partition_order(n),
                max_p <= 8,
                q <= max_p + 1,
                q > 0 ==> best_p < q && best_p <= max_p && layout_ok(n, o, best_p as nat),
                q > 0 ==> best_cost == order_cost(rs, n, o, best_p as nat),
                q > 0 ==> best_ps@ == best_params(rs, n, o, best_p as nat),
                forall|j: nat|
                    j < q && layout_ok(n, o, j) ==> order_cost(rs, n, o, best_p as nat)
                        <= #[trigger] order_cost(rs, n, o, j),
                forall|j: nat|
                    j < best_p && layout_ok(n, o, j) ==> order_cost(rs, n, o, best_p as nat)
                        < #[trigger] order_cost(rs, n, o, j),
            decreases max_p + 1 - q,
        {
            match self.best_parameters(q, residuals) {
                Some((ps, total)) => {
                    let ghost bp = best_params(rs, n, o, q as nat);
                    let mut wide = false;
                    let mut i: usize = 0;
                    while i < ps.len()
                        invariant
                            ps@ == bp,
                            i <= ps@.len(),
                            wide == exists|t: int| 0 <= t < i && bp[t] > 14,
                        decreases ps.len() - i,
                    {
                        if ps[i] > 14 {
                            wide = true;
                        }
                        i = i + 1;
                    }
                    assert(wide == wide_params(bp));
                    let field: u128 = if wide {
                        5
                    } else {
                        4
                    };
                    proof {
                        assert(ps@.len() == pow2(q as nat));
                    }
                    let cost: u128 = total as u128 + 4 + field * (ps.len() as u128);
                    if q == 0 || cost < best_cost {
                        best_ps = ps;
                        best_p = q;
                        best_cost = cost;
                    }
                },
                None => {},
            }
            q = q + 1;
        }
        (best_ps, best_p)
    }

    /// Rice-codes the residuals of a block by partitions: the partition
    /// order that costs the fewest bits (the lowest on a tie) and, for each
    /// of its `2^order` partitions in turn, the codes with its best parameter.
    pub fn encode_by_partition(&self, residuals: &Vec<i64>) -> (r: (Vec<RiceEncodedStream>, u8))
        requires
            layout_ok(self.num_samples(), self.predictor_order(), 0),
            residuals@.len() == self.num_samples() - self.predictor_order(),
            bit_budget(residuals@) <= u64::MAX,
        ensures
            is_best_order(residuals@, self.num_samples(), self.predictor_order(), r.1 as nat),
            r.0@.len() == pow2(r.1 as nat),
            forall|t: int|
                0 <= t < r.0@.len() ==> {
                    let part = partition(
                        residuals@,
                        self.num_samples(),
                        self.predictor_order(),
                        r.1 as nat,
                        t as nat,
                    );
                    encodes(#[trigger] r.0@[t], part, best_param(part))
                },
    {
        let ghost rs = residuals@;
        let (ps, p) = self.best_partition_and_params(residuals);
        let n = self.num_samples;
        let o = self.predictor_order as u64;
        let parts = ps.len() as u64;
        proof {
            vstd::arithmetic::power2::lemma_pow2_pos(p as nat);
        }
        let size = n / parts;
        let mut out: Vec<RiceEncodedStream> = Vec::new();
        let mut t: u64 = 0;
        while t < parts
            invariant
                rs == residuals@,
                rs.len() == n - o,
                n == self.num_samples(),
                o == self.predictor_order(),
                layout_ok(n as nat, o as nat, p as nat),
                parts == pow2(p as nat),
                ps@ == best_params(rs, n as nat, o as nat, p as nat),
                size == part_size(n as nat, p as nat),
                t <= parts,
                out@.len() == t,
                forall|j: int|
                    0 <= j < t ==> {
                        let part = partition(rs, n as nat, o as nat, p as nat, j as nat);
                        encodes(#[trigger] out@[j], part, best_param(part))
                    },
            decreases parts - t,
        {
            let (part, _start, _len) = copy_partition(residuals, n, o, p, size, t);
            proof {
                lemma_best_param_upto(part@, 30);
                assert(ps@[t as int] == best_param(part@) as u8);
            }
            let stream = Self::encode(ps[t as usize], &part);
            out.push(stream);
            t = t + 1;
        }
        (out, p)
    }

    /// Rice-codes the residuals with the parameter `rice_param`.
    pub fn encode(rice_param: u8, residuals: &Vec<i64>) -> (r: RiceEncodedStream)
        requires
            rice_param <= 30,
        ensures
            encodes(r, residuals@, rice_param as nat),
    {
        let m = rice_param as u64;
        let ghost rs = residuals@;
        let mut w = BitWriter::new();
        let mut i: usize = 0;
        assert(rs.take(0) =~= Seq::<i64>::empty());
        while i < residuals.len()
            invariant
                m == rice_param,
                m <= 30,
                rs == residuals@,
                i <= rs.len(),
                w.wf(),
                w.bits() == rice_stream(rs.take(i as int), m as nat),
            decreases residuals.len() - i,
        {
            let ghost base = w.bits();
            let z = Self::zigzag(residuals[i]);
            let q = z >> m;
            proof {
                lemma_shr_bit(z, m);
            }
            w.push_zeros(q);
            w.push_bit(true);
            let ghost head = base + zero_bits(q as nat) + seq![true];
            assert(w.bits() == head);
            let mut j: u64 = 0;
            while j < m
                invariant
                    m <= 30,
                    j <= m,
                    w.wf(),
                    w.bits() == head + low_bits(z as nat, m as nat).take(j as int),
                decreases m - j,
            {
                let bit = (z >> (m - 1 - j)) & 1u64 == 1u64;
                proof {
                    lemma_shr_bit(z, (m - 1 - j) as u64);
                    assert(low_bits(z as nat, m as nat).take(j + 1) =~= low_bits(
                        z as nat,
                        m as nat,
                    ).take(j as int).push(bit));
                }
                w.push_bit(bit);
                j = j + 1;
            }
            proof {
                assert(low_bits(z as nat, m as nat).take(m as int) =~= low_bits(z as nat, m as nat));
                assert(rs.take(i + 1) =~= rs.take(i as int).push(rs[i as int]));
                lemma_stream_push(rs.take(i as int), rs[i as int], m as nat);
                assert(w.bits() =~= base + rice_code(z as nat, m as nat));
            }
            i = i + 1;
        }
        assert(rs.take(i as int) =~= rs);
        let (stream, extra) = w.finish();
        RiceEncodedStream { stream, param: rice_param, extra_bits_len: extra }
    }
}

} // verus!
