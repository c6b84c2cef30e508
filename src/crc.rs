use vstd::prelude::*;

use crate::bits::{
    bits_of_bytes, byte_bits, lemma_bits_of_bytes_len, lemma_bits_of_bytes_take,
    lemma_bits_of_xor_bytes, xor_bits, xor_bytes, zero_bits,
};

verus! {

/// One step of binary long division by the generator `x^w + poly`: the next
/// message bit is shifted into the partial remainder, and the generator is
/// subtracted (exclusive or) when the degree-`w` term is set.
pub open spec fn div_step(r: u32, bit: bool, w: u32, poly: u32) -> u32 {
    let s: u32 = (r << 1u32) | (if bit { 1u32 } else { 0u32 });
    if s & (1u32 << w) != 0u32 {
        (s ^ (1u32 << w)) ^ poly
    } else {
        s
    }
}

/// The partial remainder after feeding `bits`, most significant first, into a
/// divider that starts from the remainder `r`.
pub open spec fn div_run(r: u32, bits: Seq<bool>, w: u32, poly: u32) -> u32
    decreases bits.len(),
{
    if bits.len() == 0 {
        r
    } else {
        div_step(div_run(r, bits.drop_last(), w, poly), bits.last(), w, poly)
    }
}

/// The CRC of a byte message: the remainder of the message with `w` zero
/// bits appended, divided bitwise by the generator `x^w + poly`.
pub open spec fn crc_of(bytes: Seq<u8>, w: u32, poly: u32) -> u32 {
    div_run(0, bits_of_bytes(bytes) + zero_bits(w as nat), w, poly)
}

/// A generator of width `w` whose low terms are `poly`.
pub open spec fn valid_generator(w: u32, poly: u32) -> bool {
    1 <= w <= 16 && poly < (1u32 << w)
}

proof fn lemma_step_bounded(r: u32, b: u32, w: u32, poly: u32)
    by (bit_vector)
    requires
        1 <= w <= 16,
        poly < (1u32 << w),
        r < (1u32 << w),
        b <= 1,
    ensures
        ({
            let s: u32 = (r << 1u32) | b;
            if s & (1u32 << w) != 0u32 {
                (s ^ (1u32 << w)) ^ poly
            } else {
                s
            }
        }) < (1u32 << w),
{
}

proof fn lemma_step_linear(r1: u32, b1: u32, r2: u32, b2: u32, w: u32, poly: u32)
    by (bit_vector)
    requires
        1 <= w <= 16,
        poly < (1u32 << w),
        r1 < (1u32 << w),
        r2 < (1u32 << w),
        b1 <= 1,
        b2 <= 1,
    ensures
        ({
            let s: u32 = ((r1 ^ r2) << 1u32) | (b1 ^ b2);
            if s & (1u32 << w) != 0u32 {
                (s ^ (1u32 << w)) ^ poly
            } else {
                s
            }
        }) == ({
            let s: u32 = (r1 << 1u32) | b1;
            if s & (1u32 << w) != 0u32 {
                (s ^ (1u32 << w)) ^ poly
            } else {
                s
            }
        }) ^ ({
            let s: u32 = (r2 << 1u32) | b2;
            if s & (1u32 << w) != 0u32 {
                (s ^ (1u32 << w)) ^ poly
            } else {
                s
            }
        }),
{
}

proof fn lemma_run_bounded(r: u32, bits: Seq<bool>, w: u32, poly: u32)
    requires
        valid_generator(w, poly),
        r < (1u32 << w),
    ensures
        div_run(r, bits, w, poly) < (1u32 << w),
    decreases bits.len(),
{
    if bits.len() > 0 {
        lemma_run_bounded(r, bits.drop_last(), w, poly);
        let b: u32 = if bits.last() { 1 } else { 0 };
        lemma_step_bounded(div_run(r, bits.drop_last(), w, poly), b, w, poly);
    }
}

proof fn lemma_run_push(r: u32, bits: Seq<bool>, b: bool, w: u32, poly: u32)
    ensures
        div_run(r, bits.push(b), w, poly) == div_step(div_run(r, bits, w, poly), b, w, poly),
{
    assert(bits.push(b).drop_last() =~= bits);
}

/// Long division distributes over exclusive or of equally long messages.
proof fn lemma_run_linear(r1: u32, x: Seq<bool>, r2: u32, y: Seq<bool>, w: u32, poly: u32)
    requires
        valid_generator(w, poly),
        r1 < (1u32 << w),
        r2 < (1u32 << w),
        x.len() == y.len(),
    ensures
        div_run(r1 ^ r2, xor_bits(x, y), w, poly) == div_run(r1, x, w, poly) ^ div_run(
            r2,
            y,
            w,
            poly,
        ),
    decreases x.len(),
{
    if x.len() > 0 {
        let xs = x.drop_last();
        let ys = y.drop_last();
        assert(xor_bits(x, y).drop_last() =~= xor_bits(xs, ys));
        lemma_run_linear(r1, xs, r2, ys, w, poly);
        lemma_run_bounded(r1, xs, w, poly);
        lemma_run_bounded(r2, ys, w, poly);
        let b1: u32 = if x.last() { 1 } else { 0 };
        let b2: u32 = if y.last() { 1 } else { 0 };
        assert((b1 ^ b2) == (if xor_bits(x, y).last() { 1u32 } else { 0u32 })) by {
            assert(0u32 ^ 0u32 == 0u32) by (bit_vector);
            assert(1u32 ^ 1u32 == 0u32) by (bit_vector);
            assert(0u32 ^ 1u32 == 1u32) by (bit_vector);
            assert(1u32 ^ 0u32 == 1u32) by (bit_vector);
        }
        lemma_step_linear(
            div_run(r1, xs, w, poly),
            b1,
            div_run(r2, ys, w, poly),
            b2,
            w,
            poly,
        );
    }
}

/// The CRC of an empty message is zero.
pub proof fn lemma_crc_empty(w: u32, poly: u32)
    requires
        valid_generator(w, poly),
    ensures
        crc_of(Seq::empty(), w, poly) == 0,
{
    assert(bits_of_bytes(Seq::<u8>::empty()) + zero_bits(w as nat) =~= zero_bits(w as nat));
    lemma_zero_run(w as nat, w, poly);
}

proof fn lemma_zero_run(n: nat, w: u32, poly: u32)
    requires
        valid_generator(w, poly),
    ensures
        div_run(0, zero_bits(n), w, poly) == 0,
    decreases n,
{
    if n > 0 {
        assert(zero_bits(n).drop_last() =~= zero_bits((n - 1) as nat));
        lemma_zero_run((n - 1) as nat, w, poly);
        assert(((0u32 << 1u32) | 0u32) & (1u32 << w) == 0u32 && ((0u32 << 1u32) | 0u32) == 0u32)
            by (bit_vector);
    }
}

/// The CRC is linear: the CRC of the exclusive or of two messages of one
/// length is the exclusive or of their CRCs.
pub proof fn lemma_crc_linear(a: Seq<u8>, b: Seq<u8>, w: u32, poly: u32)
    requires
        valid_generator(w, poly),
        a.len() == b.len(),
    ensures
        crc_of(xor_bytes(a, b), w, poly) == crc_of(a, w, poly) ^ crc_of(b, w, poly),
{
    let z = zero_bits(w as nat);
    lemma_bits_of_xor_bytes(a, b);
    lemma_bits_of_bytes_len(a);
    lemma_bits_of_bytes_len(b);
    assert(xor_bits(bits_of_bytes(a) + z, bits_of_bytes(b) + z) =~= xor_bits(
        bits_of_bytes(a),
        bits_of_bytes(b),
    ) + z);
    assert(0u32 ^ 0u32 == 0u32) by (bit_vector);
    assert((1u32 << w) > 0u32) by (bit_vector)
        requires
            1 <= w <= 16,
    ;
    lemma_run_linear(0, bits_of_bytes(a) + z, 0, bits_of_bytes(b) + z, w, poly);
}

/// Feeds one byte, most significant bit first, into the divider.
fn feed_byte(r: u32, byte: u8, w: u32, poly: u32) -> (out: u32)
    requires
        valid_generator(w, poly),
        r < (1u32 << w),
    ensures
        out == div_run(r, byte_bits(byte), w, poly),
        out < (1u32 << w),
{
    let mut acc: u32 = r;
    let mut j: u8 = 0;
    while j < 8
        invariant
            valid_generator(w, poly),
            r < (1u32 << w),
            j <= 8,
            acc == div_run(r, byte_bits(byte).take(j as int), w, poly),
            acc < (1u32 << w),
        decreases 8 - j,
    {
        let bit = (byte >> (7 - j)) & 1u8 == 1u8;
        proof {
            assert(byte_bits(byte).take(j + 1) =~= byte_bits(byte).take(j as int).push(bit));
            lemma_run_push(r, byte_bits(byte).take(j as int), bit, w, poly);
            lemma_step_bounded(acc, if bit { 1 } else { 0 }, w, poly);
        }
        acc = (acc << 1u32) | (if bit { 1u32 } else { 0u32 });
        if acc & (1u32 << w) != 0 {
            acc = (acc ^ (1u32 << w)) ^ poly;
        }
        j = j + 1;
    }
    assert(byte_bits(byte).take(8) =~= byte_bits(byte));
    acc
}

proof fn lemma_run_append(r: u32, a: Seq<bool>, b: Seq<bool>, w: u32, poly: u32)
    ensures
        div_run(r, a + b, w, poly) == div_run(div_run(r, a, w, poly), b, w, poly),
    decreases b.len(),
{
    if b.len() > 0 {
        assert((a + b).drop_last() =~= a + b.drop_last());
        lemma_run_append(r, a, b.drop_last(), w, poly);
    } else {
        assert(a + b =~= a);
    }
}

/// Long division of a byte message, with `w` zero bits appended.
fn crc_of_bytes(bytes: &[u8], w: u32, poly: u32) -> (out: u32)
    requires
        valid_generator(w, poly),
    ensures
        out == crc_of(bytes@, w, poly),
        out < (1u32 << w),
{
    proof {
        assert((1u32 << w) > 0u32) by (bit_vector)
            requires
                1 <= w <= 16,
        ;
    }
    let mut acc: u32 = 0;
    let mut i: usize = 0;
    while i < bytes.len()
        invariant
            valid_generator(w, poly),
            i <= bytes@.len(),
            acc == div_run(0, bits_of_bytes(bytes@.take(i as int)), w, poly),
            acc < (1u32 << w),
        decreases bytes.len() - i,
    {
        proof {
            lemma_bits_of_bytes_take(bytes@, i as int);
            lemma_run_append(
                0,
                bits_of_bytes(bytes@.take(i as int)),
                byte_bits(bytes@[i as int]),
                w,
                poly,
            );
        }
        acc = feed_byte(acc, bytes[i], w, poly);
        i = i + 1;
    }
    assert(bytes@.take(i as int) =~= bytes@);
    let ghost msg = bits_of_bytes(bytes@);
    let mut k: u32 = 0;
    while k < w
        invariant
            valid_generator(w, poly),
            k <= w,
            msg == bits_of_bytes(bytes@),
            acc == div_run(0, msg + zero_bits(k as nat), w, poly),
            acc < (1u32 << w),
        decreases w - k,
    {
        proof {
            assert(msg + zero_bits((k + 1) as nat) =~= (msg + zero_bits(k as nat)).push(false));
            lemma_run_push(0, msg + zero_bits(k as nat), false, w, poly);
            lemma_step_bounded(acc, 0, w, poly);
            assert((acc << 1u32) | 0u32 == acc << 1u32) by (bit_vector);
        }
        acc = acc << 1u32;
        if acc & (1u32 << w) != 0 {
            acc = (acc ^ (1u32 << w)) ^ poly;
        }
        k = k + 1;
    }
    acc
}

/// The generator of a CRC: its low terms `poly` (the leading `x^poly_len`
/// term is implicit) and its width `poly_len`.
///
/// For `x^8 + x^2 + x + 1`, `poly` is `0b0000_0111` and `poly_len` is 8.
pub struct CrcOptions<T> {
    poly: T,
    poly_len: T,
}

impl<T> CrcOptions<T> {
    /// The low terms of the generator.
    pub closed spec fn poly(&self) -> T {
        self.poly
    }

    /// The width of the generator.
    pub closed spec fn poly_len(&self) -> T {
        self.poly_len
    }

    /// Describes the generator `x^poly_len + poly`.
    pub fn new(poly: T, poly_len: T) -> (r: Self)
        ensures
            r.poly() == poly,
            r.poly_len() == poly_len,
    {
        CrcOptions { poly: poly, poly_len: poly_len }
    }
}

impl CrcOptions<u8> {
    /// The CRC of a byte message.
    ///
    /// The generator's width is at most 8 and its low terms lie below it.
    pub fn build_crc8(&self, data: &Vec<u8>) -> (r: u8)
        requires
            valid_generator(self.poly_len() as u32, self.poly() as u32),
            self.poly_len() <= 8,
        ensures
            r as u32 == crc_of(data@, self.poly_len() as u32, self.poly() as u32),
    {
        let w = self.poly_len as u32;
        let out = crc_of_bytes(data.as_slice(), w, self.poly as u32);
        proof {
            assert((1u32 << w) <= 256u32) by (bit_vector)
                requires
                    w <= 8,
            ;
        }
        out as u8
    }
}

/// The bytes that a sequence of byte-valued halfwords holds.
pub open spec fn halfword_bytes(data: Seq<u16>) -> Seq<u8> {
    Seq::new(data.len(), |i: int| data[i] as u8)
}

impl CrcOptions<u16> {
    /// The CRC of a message given as halfwords, each holding one byte of it.
    ///
    /// The generator's width is at most 16 and its low terms lie below it.
    pub fn build_crc16(&self, data: &Vec<u16>) -> (r: u16)
        requires
            valid_generator(self.poly_len() as u32, self.poly() as u32),
            forall|i: int| 0 <= i < data@.len() ==> #[trigger] data@[i] < 256,
        ensures
            r as u32 == crc_of(halfword_bytes(data@), self.poly_len() as u32, self.poly() as u32),
    {
        let mut bytes: Vec<u8> = Vec::new();
        let mut i: usize = 0;
        while i < data.len()
            invariant
                i <= data@.len(),
                bytes@ == halfword_bytes(data@).take(i as int),
            decreases data.len() - i,
        {
            bytes.push(data[i] as u8);
            i = i + 1;
            assert(bytes@ =~= halfword_bytes(data@).take(i as int));
        }
        assert(bytes@ =~= halfword_bytes(data@));
        let w = self.poly_len as u32;
        let out = crc_of_bytes(bytes.as_slice(), w, self.poly as u32);
        proof {
            assert((1u32 << w) <= 65536u32) by (bit_vector)
                requires
                    w <= 16,
            ;
        }
        out as u16
    }
}

} // verus!
