use vstd::prelude::*;

verus! {

/// `64^e`: the weight of a six-bit group.
pub open spec fn pow64(e: nat) -> nat
    decreases e,
{
    if e == 0 {
        1
    } else {
        64 * pow64((e - 1) as nat)
    }
}

/// The number of bytes that encode `n`.
pub open spec fn coded_len(n: nat) -> nat {
    if n < 0x80 {
        1
    } else if n < 0x800 {
        2
    } else if n < 0x1_0000 {
        3
    } else if n < 0x20_0000 {
        4
    } else if n < 0x400_0000 {
        5
    } else if n < 0x8000_0000 {
        6
    } else {
        7
    }
}

/// The fixed high bits of a leading byte that starts a `k`-byte code.
pub open spec fn lead_base(k: nat) -> nat {
    if k <= 1 {
        0
    } else if k == 2 {
        0xC0
    } else if k == 3 {
        0xE0
    } else if k == 4 {
        0xF0
    } else if k == 5 {
        0xF8
    } else if k == 6 {
        0xFC
    } else {
        0xFE
    }
}

/// The length of the code that a leading byte starts.
pub open spec fn lead_len(b: u8) -> nat {
    if b < 0x80 {
        1
    } else if b < 0xE0 {
        2
    } else if b < 0xF0 {
        3
    } else if b < 0xF8 {
        4
    } else if b < 0xFC {
        5
    } else if b < 0xFE {
        6
    } else {
        7
    }
}

/// The code of `n`: the payload bits of the leading byte carry the highest
/// bits of `n`, and each following byte `10xxxxxx` carries the next six.
pub open spec fn utf8_code(n: nat) -> Seq<u8> {
    let k = coded_len(n);
    Seq::new(
        k,
        |i: int|
            if i == 0 {
                (lead_base(k) + n / pow64((k - 1) as nat)) as u8
            } else {
                (0x80 + (n / pow64((k - 1 - i) as nat)) % 64) as u8
            },
    )
}

/// The number that a code's bytes carry: the leading byte's payload, then six
/// bits from each following byte.
pub open spec fn code_value(bytes: Seq<u8>) -> int
    decreases bytes.len(),
{
    if bytes.len() == 0 {
        0
    } else if bytes.len() == 1 {
        bytes[0] - lead_base(lead_len(bytes[0]))
    } else {
        code_value(bytes.drop_last()) * 64 + (bytes.last() - 0x80)
    }
}

/// Reads a code back: its length must be the one its leading byte announces.
pub open spec fn utf8_decode(bytes: Seq<u8>) -> Option<int> {
    if bytes.len() >= 1 && lead_len(bytes[0]) == bytes.len() {
        Some(code_value(bytes))
    } else {
        None
    }
}

/// The largest number that the code carries, plus one.
pub open spec fn code_limit() -> nat {
    0x10_0000_0000
}

proof fn lemma_pow64_values()
    ensures
        pow64(0) == 1,
        pow64(1) == 64,
        pow64(2) == 4096,
        pow64(3) == 262144,
        pow64(4) == 16777216,
        pow64(5) == 1073741824,
        pow64(6) == 68719476736,
{
    reveal_with_fuel(pow64, 7);
}

proof fn lemma_div_step(n: nat, e: nat)
    ensures
        (n / pow64(e + 1)) * 64 + (n / pow64(e)) % 64 == n / pow64(e),
{
    let d = pow64(e);
    assert(pow64(e + 1) == 64 * d);
    lemma_pow64_pos(e);
    vstd::arithmetic::div_mod::lemma_div_denominator(n as int, d as int, 64);
    vstd::arithmetic::div_mod::lemma_fundamental_div_mod((n / d) as int, 64);
    assert(d * 64 == 64 * d) by (nonlinear_arith);
}

proof fn lemma_pow64_pos(e: nat)
    ensures
        pow64(e) > 0,
    decreases e,
{
    if e > 0 {
        lemma_pow64_pos((e - 1) as nat);
    }
}

proof fn lemma_code_prefix(n: nat, j: nat)
    requires
        n < code_limit(),
        1 <= j <= coded_len(n),
    ensures
        code_value(utf8_code(n).take(j as int)) == n / pow64((coded_len(n) - j) as nat),
        lead_len(utf8_code(n)[0]) == coded_len(n),
    decreases j,
{
    let k = coded_len(n);
    let code = utf8_code(n);
    lemma_pow64_values();
    if j == 1 {
        let lead = code[0];
        assert(code.take(1)[0] == lead);
        if k == 1 {
            assert(n / 1 == n);
            assert(lead == n);
        } else if k == 2 {
            assert(n / 64 < 32);
        } else if k == 3 {
            assert(n / 4096 < 16);
        } else if k == 4 {
            assert(n / 262144 < 8);
        } else if k == 5 {
            assert(n / 16777216 < 4);
        } else if k == 6 {
            assert(n / 1073741824 < 2);
        } else {
            assert(n / 68719476736 == 0);
        }
        assert(lead_len(lead) == k);
    } else {
        lemma_code_prefix(n, 1);
        lemma_code_prefix(n, (j - 1) as nat);
        assert(code.take(j as int).drop_last() =~= code.take(j - 1));
        let e = (k - j) as nat;
        assert((k - (j - 1)) as nat == e + 1);
        lemma_pow64_pos(e);
        assert(code.take(j as int).last() == (0x80 + (n / pow64(e)) % 64) as u8);
        lemma_div_step(n, e);
    }
}

/// Decoding the code of `n` gives `n` back, for every `n` that the code can
/// carry.
pub proof fn lemma_utf8_round_trip(n: nat)
    requires
        n < code_limit(),
    ensures
        utf8_decode(utf8_code(n)) == Some(n as int),
{
    let k = coded_len(n);
    lemma_code_prefix(n, k);
    assert(utf8_code(n).take(k as int) =~= utf8_code(n));
    lemma_pow64_values();
    assert(n / pow64(0) == n);
    lemma_code_prefix(n, 1);
}

pub struct Utf8Encoder;

impl Utf8Encoder {
    /// Encodes a number of at most 36 bits in the UTF-8-like code of frame
    /// headers.
    pub fn encode(num: u64) -> (r: Vec<u8>)
        requires
            num < code_limit(),
        ensures
            r@ == utf8_code(num as nat),
    {
        proof {
            lemma_pow64_values();
        }
        let (k, base, top): (usize, u64, u64) = if num < 0x80 {
            (1, 0, 1)
        } else if num < 0x800 {
            (2, 0xC0, 64)
        } else if num < 0x1_0000 {
            (3, 0xE0, 4096)
        } else if num < 0x20_0000 {
            (4, 0xF0, 262144)
        } else if num < 0x400_0000 {
            (5, 0xF8, 16777216)
        } else if num < 0x8000_0000 {
            (6, 0xFC, 1073741824)
        } else {
            (7, 0xFE, 68719476736)
        };
        assert(k == coded_len(num as nat));
        assert(base == lead_base(k as nat));
        assert(top == pow64((k - 1) as nat));
        let ghost code = utf8_code(num as nat);
        let mut out: Vec<u8> = Vec::new();
        assert(num / top < 256 - base) by {
            if k == 1 {
                assert(num / 1 == num);
            } else if k == 2 {
                assert(num / 64 < 32);
            } else if k == 3 {
                assert(num / 4096 < 16);
            } else if k == 4 {
                assert(num / 262144 < 8);
            } else if k == 5 {
                assert(num / 16777216 < 4);
            } else if k == 6 {
                assert(num / 1073741824 < 2);
            } else {
                assert(num / 68719476736 == 0);
            }
        }
        out.push((base + num / top) as u8);
        let mut d: u64 = top;
        let mut i: usize = 1;
        assert(out@ =~= code.take(1));
        while i < k
            invariant
                k == coded_len(num as nat),
                code == utf8_code(num as nat),
                1 <= i <= k,
                d == pow64((k - i) as nat),
                out@ == code.take(i as int),
            decreases k - i,
        {
            let ghost e = (k - i - 1) as nat;
            assert(pow64(e + 1) == 64 * pow64(e));
            assert((k - i) as nat == e + 1);
            proof {
                lemma_pow64_pos(e);
            }
            d = d / 64;
            assert(d == pow64(e));
            out.push((0x80 + (num / d) % 64) as u8);
            i = i + 1;
            assert(out@ =~= code.take(i as int));
        }
        assert(out@ =~= code);
        out
    }
}

} // verus!
