//! Bit-level model: bytes as bit strings (most significant bit first), values as
//! binary digit strings, and the conversions between them.

use vstd::prelude::*;

verus! {

/// Numeric value of a sequence of binary digits, most significant first.
pub open spec fn bits_value(bits: Seq<bool>) -> nat
    decreases bits.len(),
{
    if bits.len() == 0 {
        0
    } else {
        2 * bits_value(bits.drop_last()) + (if bits.last() { 1nat } else { 0nat })
    }
}

/// `2` to the power `n`.
pub open spec fn pow2(n: nat) -> nat
    decreases n,
{
    if n == 0 {
        1
    } else {
        2 * pow2((n - 1) as nat)
    }
}

/// `v` shifted right by `k` binary places.
pub open spec fn shr(v: nat, k: nat) -> nat
    decreases k,
{
    if k == 0 {
        v
    } else {
        shr(v, (k - 1) as nat) / 2
    }
}

/// Binary digit `k` of `v`, counted from the least significant digit.
pub open spec fn bit_at(v: nat, k: nat) -> bool {
    shr(v, k) % 2 == 1
}

/// Number of digits in the shortest binary form of `v` (one digit for zero).
pub open spec fn bin_digits(v: nat) -> nat
    decreases v,
{
    if v < 2 {
        1
    } else {
        1 + bin_digits(v / 2)
    }
}

/// The last `n` binary digits of `v`, most significant first.
pub open spec fn digits(v: nat, n: nat) -> Seq<bool> {
    Seq::new(n, |i: int| bit_at(v, (n - 1 - i) as nat))
}

/// The digits of `v` in binary, left-padded with zeros up to `width` digits;
/// a value wider than `width` keeps all its digits.
pub open spec fn padded_binary(v: nat, width: nat) -> Seq<bool> {
    digits(v, if width > bin_digits(v) { width } else { bin_digits(v) })
}

/// The eight bits of a byte, most significant first.
pub open spec fn byte_bits(b: u8) -> Seq<bool> {
    digits(b as nat, 8)
}

/// The bits of a byte sequence, byte after byte, each most significant bit first.
pub open spec fn bytes_bits(bytes: Seq<u8>) -> Seq<bool>
    decreases bytes.len(),
{
    if bytes.len() == 0 {
        seq![]
    } else {
        bytes_bits(bytes.drop_last()) + byte_bits(bytes.last())
    }
}

/// The character that stands for a bit in a binary string.
pub open spec fn bit_char(b: bool) -> char {
    if b {
        '1'
    } else {
        '0'
    }
}

/// The binary string of a byte sequence: eight characters `'0'`/`'1'` per byte.
pub open spec fn binary_chars(bytes: Seq<u8>) -> Seq<char> {
    bytes_bits(bytes).map_values(|b: bool| bit_char(b))
}

/// The ASCII bytes of a binary string made of the given bits.
pub open spec fn bit_text(bits: Seq<bool>) -> Seq<u8> {
    bits.map_values(|b: bool| if b { 49u8 } else { 48u8 })
}

/// Shifting a machine word agrees with [`shr`].
pub proof fn lemma_shr_u64(v: u64, k: u64)
    requires
        k < 64,
    ensures
        shr(v as nat, k as nat) == (v >> k) as nat,
    decreases k,
{
    if k == 0 {
        assert(v >> 0u64 == v) by (bit_vector);
    } else {
        lemma_shr_u64(v, (k - 1) as u64);
        assert((v >> ((k - 1) as u64)) / 2 == v >> k) by (bit_vector)
            requires
                0 < k < 64,
        ;
    }
}

/// The low bit of a word is its remainder modulo two.
pub proof fn lemma_low_bit(x: u64)
    ensures
        (x & 1) == x % 2,
        (x & 1) <= 1,
{
    assert((x & 1) == x % 2 && (x & 1) <= 1) by (bit_vector);
}

/// Reads bit `k` of `v` from a machine word.
pub fn word_bit(v: u64, k: u64) -> (b: bool)
    requires
        k < 64,
    ensures
        b == bit_at(v as nat, k as nat),
{
    proof {
        lemma_shr_u64(v, k);
        lemma_low_bit(v >> k);
    }
    (v >> k) & 1 == 1
}

/// Renders each byte as eight binary digits, most significant first, and joins them.
pub fn bytearray_to_binary_string(bytes: &[u8]) -> (s: String)
    ensures
        s@ == binary_chars(bytes@),
{
    let mut s = String::new();
    let n = bytes.len();
    proof {
        reveal_strlit("0");
        reveal_strlit("1");
        assert(bytes@.take(0) =~= Seq::<u8>::empty());
        assert(binary_chars(Seq::<u8>::empty()) =~= Seq::<char>::empty());
    }
    for i in 0..n
        invariant
            n == bytes@.len(),
            s@ == binary_chars(bytes@.take(i as int)),
    {
        let b = bytes[i];
        let ghost before = s@;
        let mut j: u64 = 0;
        while j < 8
            invariant
                j <= 8,
                b == bytes@[i as int],
                s@ == before + byte_bits(b).take(j as int).map_values(|x: bool| bit_char(x)),
            decreases 8 - j,
        {
            let bit = word_bit(b as u64, 7 - j);
            proof {
                reveal_strlit("0");
                reveal_strlit("1");
            }
            if bit {
                s.append("1");
            } else {
                s.append("0");
            }
            assert(byte_bits(b).take(j + 1).map_values(|x: bool| bit_char(x)) =~= byte_bits(
                b,
            ).take(j as int).map_values(|x: bool| bit_char(x)).push(bit_char(bit)));
            j = j + 1;
        }
        proof {
            let t = bytes@.take(i + 1);
            assert(t.drop_last() =~= bytes@.take(i as int));
            assert(byte_bits(b).take(8) =~= byte_bits(b));
            assert(bytes_bits(t) == bytes_bits(bytes@.take(i as int)) + byte_bits(b));
            assert(binary_chars(t) =~= binary_chars(bytes@.take(i as int)) + byte_bits(
                b,
            ).map_values(|x: bool| bit_char(x)));
        }
    }
    proof {
        assert(bytes@.take(n as int) =~= bytes@);
    }
    s
}

/// `buf` with `digits` written from position `start` on; digits that would fall past the
/// end of `buf` are dropped.
pub open spec fn write_bits(buf: Seq<bool>, start: int, digits: Seq<bool>) -> Seq<bool> {
    Seq::new(
        buf.len(),
        |k: int|
            if start <= k < start + digits.len() {
                digits[k - start]
            } else {
                buf[k]
            },
    )
}

/// The bytes that a bit buffer packs into: byte `i` is made of bits `8i .. 8i + 8`,
/// the first of them the most significant.
pub open spec fn pack_spec(bits: Seq<bool>, nbytes: nat) -> Seq<u8> {
    Seq::new(nbytes, |i: int| bits_value(bits.subrange(8 * i, 8 * i + 8)) as u8)
}

/// A word has no binary digits beyond the 64th.
pub proof fn lemma_shr_u64_high(v: u64, k: nat)
    requires
        k >= 64,
    ensures
        shr(v as nat, k) == 0,
    decreases k,
{
    if k == 64 {
        lemma_shr_u64(v, 63);
        assert((v >> 63u64) / 2 == 0) by (bit_vector);
    } else {
        lemma_shr_u64_high(v, (k - 1) as nat);
    }
}

/// Digit count of the shortest binary form of a word.
pub fn bin_digits_of(v: u64) -> (n: u64)
    ensures
        n == bin_digits(v as nat),
        1 <= n <= 64,
{
    let mut t = v;
    let mut n: u64 = 1;
    proof {
        lemma_bin_digits_bound(v as nat);
    }
    while t >= 2
        invariant
            bin_digits(v as nat) == n - 1 + bin_digits(t as nat),
            1 <= n <= 64,
            bin_digits(v as nat) <= 64,
        decreases t,
    {
        t = t / 2;
        n = n + 1;
    }
    n
}

/// A word's shortest binary form has at most 64 digits.
pub proof fn lemma_bin_digits_bound(v: nat)
    requires
        v < 0x1_0000_0000_0000_0000,
    ensures
        1 <= bin_digits(v) <= 64,
{
    lemma_pow2_step(64);
    lemma_bin_digits_pow(v, 64);
}

/// A value below `2^n` (with `n >= 1`) has at most `n` binary digits.
pub proof fn lemma_bin_digits_pow(v: nat, n: nat)
    requires
        n >= 1,
        v < pow2(n),
    ensures
        1 <= bin_digits(v) <= n,
    decreases v,
{
    if v >= 2 {
        lemma_pow2_step(n);
        lemma_bin_digits_pow(v / 2, (n - 1) as nat);
    }
}

/// `2^n` for `n >= 1` is twice `2^(n-1)`; and `2^64` is the word bound.
pub proof fn lemma_pow2_step(n: nat)
    ensures
        n >= 1 ==> pow2(n) == 2 * pow2((n - 1) as nat),
        n == 1 ==> pow2(n) == 2,
        pow2(64) == 0x1_0000_0000_0000_0000,
{
    reveal_with_fuel(pow2, 65);
}

/// Writes `v` in binary, left-padded with zeros to `width` digits, from bit `start`
/// of `buf` on; digits past the end of `buf` are dropped.
pub fn write_padded(buf: &mut Vec<bool>, start: usize, v: u64, width: usize)
    requires
        start + width <= old(buf).len(),
    ensures
        final(buf)@ == write_bits(old(buf)@, start as int, padded_binary(v as nat, width as nat)),
{
    let d = bin_digits_of(v);
    let n: usize = if (width as u64) > d { width } else { d as usize };
    let room = buf.len() - start;
    let m = if n < room { n } else { room };
    let ghost orig = buf@;
    let blen = buf.len();
    let ghost digits = padded_binary(v as nat, width as nat);
    assert(digits.len() == n);
    for i in 0..m
        invariant
            buf@.len() == orig.len(),
            blen == orig.len(),
            start + m <= blen,
            m <= n,
            start + m <= orig.len(),
            m == n || start + m == orig.len(),
            digits == padded_binary(v as nat, width as nat),
            digits.len() == n,
            forall|k: int|
                0 <= k < orig.len() ==> #[trigger] buf@[k] == if start <= k < start + i {
                    digits[k - start]
                } else {
                    orig[k]
                },
    {
        let idx = n - 1 - i;
        let bit = if idx >= 64 {
            proof {
                lemma_shr_u64_high(v, idx as nat);
            }
            false
        } else {
            word_bit(v, idx as u64)
        };
        assert(bit == digits[i as int]);
        buf.set(start + i, bit);
    }
    assert(buf@ =~= write_bits(orig, start as int, digits));
}

/// Packs a bit buffer into bytes, eight bits per byte, most significant bit first.
pub fn pack_bits(bits: &Vec<bool>, nbytes: usize) -> (r: Vec<u8>)
    requires
        8 * nbytes <= bits.len(),
    ensures
        r@ == pack_spec(bits@, nbytes as nat),
{
    let mut out: Vec<u8> = Vec::new();
    for i in 0..nbytes
        invariant
            8 * nbytes <= bits.len(),
            out@.len() == i,
            forall|k: int| 0 <= k < i ==> #[trigger] out@[k] == pack_spec(bits@, nbytes as nat)[k],
    {
        let ghost chunk = bits@.subrange(8 * i, 8 * i + 8);
        let mut byte: u8 = 0;
        let mut j: usize = 0;
        proof {
            assert(chunk.take(0) =~= Seq::<bool>::empty());
        }
        while j < 8
            invariant
                j <= 8,
                8 * nbytes <= bits.len(),
                i < nbytes,
                chunk == bits@.subrange(8 * i, 8 * i + 8),
                byte == bits_value(chunk.take(j as int)),
                byte < pow2(j as nat),
            decreases 8 - j,
        {
            let b = bits[8 * i + j];
            proof {
                assert(chunk.take(j + 1) =~= chunk.take(j as int).push(b));
                assert(chunk.take(j + 1).drop_last() =~= chunk.take(j as int));
                reveal_with_fuel(pow2, 9);
            }
            byte = byte * 2 + if b { 1 } else { 0 };
            j = j + 1;
        }
        proof {
            assert(chunk.take(8) =~= chunk);
        }
        out.push(byte);
    }
    assert(out@ =~= pack_spec(bits@, nbytes as nat));
    out
}

/// Shifting by `k + 1` places is halving, then shifting by `k`.
pub proof fn lemma_shr_step(v: nat, k: nat)
    ensures
        shr(v, k + 1) == shr(v / 2, k),
    decreases k,
{
    if k > 0 {
        lemma_shr_step(v, (k - 1) as nat);
        assert(shr(v, k + 1) == shr(v, k) / 2);
        assert(shr(v / 2, k) == shr(v / 2, (k - 1) as nat) / 2);
    } else {
        assert(shr(v, 1) == shr(v, 0) / 2);
    }
}

/// Dropping the last digit of `v`'s last `n` digits leaves the last `n - 1` digits of `v / 2`.
pub proof fn lemma_digits_drop_last(v: nat, n: nat)
    requires
        n >= 1,
    ensures
        digits(v, n).drop_last() =~= digits(v / 2, (n - 1) as nat),
        digits(v, n).last() == (v % 2 == 1),
{
    assert forall|i: int| 0 <= i < n - 1 implies #[trigger] digits(v, n)[i] == digits(v / 2, (n - 1) as nat)[i] by {
        lemma_shr_step(v, (n - 2 - i) as nat);
    }
}

/// A value below `2^n` is what its last `n` digits spell.
pub proof fn lemma_digits_value(v: nat, n: nat)
    requires
        v < pow2(n),
    ensures
        bits_value(digits(v, n)) == v,
    decreases n,
{
    if n == 0 {
        assert(digits(v, n) =~= Seq::<bool>::empty());
    } else {
        lemma_digits_drop_last(v, n);
        lemma_digits_value(v / 2, (n - 1) as nat);
    }
}

/// The digits of the value that some bits spell are those bits, and the value is
/// below `2^len`.
pub proof fn lemma_value_digits(bs: Seq<bool>)
    ensures
        digits(bits_value(bs), bs.len()) =~= bs,
        bits_value(bs) < pow2(bs.len()),
    decreases bs.len(),
{
    if bs.len() > 0 {
        lemma_value_digits(bs.drop_last());
        lemma_digits_drop_last(bits_value(bs), bs.len());
        let v = bits_value(bs);
        assert(v / 2 == bits_value(bs.drop_last()));
        assert(digits(v, bs.len()) =~= digits(v, bs.len()).drop_last().push(digits(v, bs.len()).last()));
        assert(bs =~= bs.drop_last().push(bs.last()));
    }
}

/// A value below `2^width` (with `width >= 1`) is written with exactly `width` digits.
pub proof fn lemma_padded_binary_fits(v: nat, width: nat)
    requires
        width >= 1,
        v < pow2(width),
    ensures
        padded_binary(v, width) == digits(v, width),
        bits_value(padded_binary(v, width)) == v,
{
    lemma_bin_digits_pow(v, width);
    lemma_digits_value(v, width);
}

/// Packing bits into bytes and reading the bytes' bits back gives the bits packed.
pub proof fn lemma_bits_of_pack(buf: Seq<bool>, n: nat)
    requires
        8 * n <= buf.len(),
    ensures
        bytes_bits(pack_spec(buf, n)) =~= buf.take(8 * n as int),
    decreases n,
{
    if n > 0 {
        let m = (n - 1) as nat;
        assert(pack_spec(buf, n).drop_last() =~= pack_spec(buf, m));
        lemma_bits_of_pack(buf, m);
        let chunk = buf.subrange(8 * m as int, 8 * m as int + 8);
        lemma_value_digits(chunk);
        lemma_pow2_step(8);
        reveal_with_fuel(pow2, 9);
        assert(pack_spec(buf, n).last() == bits_value(chunk) as u8);
        assert(byte_bits(pack_spec(buf, n).last()) =~= chunk);
        assert(buf.take(8 * n as int) =~= buf.take(8 * m as int) + chunk);
    } else {
        assert(pack_spec(buf, n) =~= Seq::<u8>::empty());
    }
}

/// The bits of a byte sequence have eight per byte.
pub proof fn lemma_bytes_bits_len(bytes: Seq<u8>)
    ensures
        bytes_bits(bytes).len() == 8 * bytes.len(),
    decreases bytes.len(),
{
    if bytes.len() > 0 {
        lemma_bytes_bits_len(bytes.drop_last());
    }
}

/// Packing the bits of some bytes gives those bytes back.
pub proof fn law_pack_inverts_bytes_bits(bytes: Seq<u8>)
    ensures
        pack_spec(bytes_bits(bytes), bytes.len()) =~= bytes,
    decreases bytes.len(),
{
    lemma_bytes_bits_len(bytes);
    if bytes.len() > 0 {
        let init = bytes.drop_last();
        law_pack_inverts_bytes_bits(init);
        lemma_bytes_bits_len(init);
        let bits = bytes_bits(bytes);
        let m = init.len();
        assert forall|i: int| 0 <= i < bytes.len() implies #[trigger] pack_spec(bits, bytes.len())[i] == bytes[i] by {
            lemma_pow2_step(8);
            reveal_with_fuel(pow2, 9);
            if i < m {
                assert(bits.subrange(8 * i, 8 * i + 8) =~= bytes_bits(init).subrange(8 * i, 8 * i + 8));
                assert(pack_spec(bytes_bits(init), m)[i] == init[i]);
            } else {
                assert(bits.subrange(8 * i, 8 * i + 8) =~= byte_bits(bytes.last()));
                lemma_digits_value(bytes.last() as nat, 8);
            }
        }
    }
}

/// Powers of two are positive.
pub proof fn lemma_pow2_positive(n: nat)
    ensures
        pow2(n) >= 1,
    decreases n,
{
    if n > 0 {
        lemma_pow2_positive((n - 1) as nat);
    }
}

/// The bits of zero are all clear.
pub proof fn lemma_zero_digits(n: nat)
    ensures
        forall|i: int| 0 <= i < n ==> !(#[trigger] digits(0, n)[i]),
{
    assert forall|i: int| 0 <= i < n implies !(#[trigger] digits(0, n)[i]) by {
        lemma_shr_zero((n - 1 - i) as nat);
    }
}

/// Zero shifted is zero.
pub proof fn lemma_shr_zero(k: nat)
    ensures
        shr(0, k) == 0,
    decreases k,
{
    if k > 0 {
        lemma_shr_zero((k - 1) as nat);
    }
}


/// The bits of two byte sequences one after the other are the bits of the first
/// followed by the bits of the second.
pub proof fn lemma_bytes_bits_concat(a: Seq<u8>, b: Seq<u8>)
    ensures
        bytes_bits(a + b) =~= bytes_bits(a) + bytes_bits(b),
    decreases b.len(),
{
    if b.len() == 0 {
        assert(a + b =~= a);
    } else {
        lemma_bytes_bits_concat(a, b.drop_last());
        assert((a + b).drop_last() =~= a + b.drop_last());
        assert((a + b).last() == b.last());
    }
}

/// The binary string of two byte sequences one after the other is the binary string of
/// the first followed by that of the second.
pub proof fn law_binary_chars_concat(a: Seq<u8>, b: Seq<u8>)
    ensures
        binary_chars(a + b) =~= binary_chars(a) + binary_chars(b),
{
    lemma_bytes_bits_concat(a, b);
}


/// The eight bits of a byte, read as a binary number most significant bit first, are
/// that byte.
pub proof fn law_byte_bits_value(b: u8)
    ensures
        byte_bits(b).len() == 8,
        bits_value(byte_bits(b)) == b,
{
    reveal_with_fuel(pow2, 9);
    lemma_digits_value(b as nat, 8);
}

} // verus!
