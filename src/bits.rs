use vstd::prelude::*;

verus! {

/// The eight bits of a byte, most significant first.
pub open spec fn byte_bits(b: u8) -> Seq<bool> {
    Seq::new(8, |i: int| (b >> ((7 - i) as u8)) & 1u8 == 1u8)
}

/// The bits of a byte sequence, each byte most significant bit first.
pub open spec fn bits_of_bytes(bytes: Seq<u8>) -> Seq<bool>
    decreases bytes.len(),
{
    if bytes.len() == 0 {
        Seq::empty()
    } else {
        bits_of_bytes(bytes.drop_last()) + byte_bits(bytes.last())
    }
}

/// A run of `n` zero bits.
pub open spec fn zero_bits(n: nat) -> Seq<bool> {
    Seq::new(n, |i: int| false)
}

/// Pointwise exclusive or of two bit sequences of one length.
pub open spec fn xor_bits(a: Seq<bool>, b: Seq<bool>) -> Seq<bool> {
    Seq::new(a.len(), |i: int| a[i] != b[i])
}

/// Pointwise exclusive or of two byte sequences of one length.
pub open spec fn xor_bytes(a: Seq<u8>, b: Seq<u8>) -> Seq<u8> {
    Seq::new(a.len(), |i: int| a[i] ^ b[i])
}

pub proof fn lemma_bits_of_bytes_len(bytes: Seq<u8>)
    ensures
        bits_of_bytes(bytes).len() == 8 * bytes.len(),
    decreases bytes.len(),
{
    if bytes.len() > 0 {
        lemma_bits_of_bytes_len(bytes.drop_last());
    }
}

/// Appending a byte appends its eight bits.
pub proof fn lemma_bits_of_bytes_push(bytes: Seq<u8>, b: u8)
    ensures
        bits_of_bytes(bytes.push(b)) == bits_of_bytes(bytes) + byte_bits(b),
{
    assert(bytes.push(b).drop_last() =~= bytes);
}

/// The bits of the first `i + 1` bytes extend those of the first `i`.
pub proof fn lemma_bits_of_bytes_take(bytes: Seq<u8>, i: int)
    requires
        0 <= i < bytes.len(),
    ensures
        bits_of_bytes(bytes.take(i + 1)) == bits_of_bytes(bytes.take(i)) + byte_bits(bytes[i]),
{
    assert(bytes.take(i + 1) =~= bytes.take(i).push(bytes[i]));
    lemma_bits_of_bytes_push(bytes.take(i), bytes[i]);
}

proof fn lemma_byte_bit_xor(a: u8, b: u8, k: u8)
    by (bit_vector)
    requires
        k < 8,
    ensures
        (((a ^ b) >> k) & 1u8 == 1u8) == (((a >> k) & 1u8 == 1u8) != ((b >> k) & 1u8 == 1u8)),
{
}

/// The bits of a pointwise exclusive or are the exclusive or of the bits.
pub proof fn lemma_bits_of_xor_bytes(a: Seq<u8>, b: Seq<u8>)
    requires
        a.len() == b.len(),
    ensures
        bits_of_bytes(xor_bytes(a, b)) == xor_bits(bits_of_bytes(a), bits_of_bytes(b)),
    decreases a.len(),
{
    lemma_bits_of_bytes_len(a);
    lemma_bits_of_bytes_len(b);
    lemma_bits_of_bytes_len(xor_bytes(a, b));
    if a.len() > 0 {
        let n = a.len() - 1;
        assert(xor_bytes(a, b).drop_last() =~= xor_bytes(a.drop_last(), b.drop_last()));
        lemma_bits_of_xor_bytes(a.drop_last(), b.drop_last());
        lemma_bits_of_bytes_len(a.drop_last());
        lemma_bits_of_bytes_len(b.drop_last());
        let x = a.last();
        let y = b.last();
        assert(xor_bytes(a, b).last() == x ^ y);
        assert forall|k: int| 0 <= k < 8 implies #[trigger] byte_bits(x ^ y)[k] == (byte_bits(
            x,
        )[k] != byte_bits(y)[k]) by {
            lemma_byte_bit_xor(x, y, (7 - k) as u8);
        }
        assert(bits_of_bytes(xor_bytes(a, b)) =~= xor_bits(bits_of_bytes(a), bits_of_bytes(b)));
    } else {
        assert(bits_of_bytes(xor_bytes(a, b)) =~= xor_bits(bits_of_bytes(a), bits_of_bytes(b)));
    }
}

} // verus!
