//! Word-level vocabulary: rotations, bit counts and little-endian bytes.
use vstd::prelude::*;
use vstd::arithmetic::power2::{is_pow2, pow2};

verus! {

/// The number of one bits of `x`.
pub open spec fn ones(x: nat) -> nat
    decreases x,
{
    if x == 0 {
        0
    } else {
        x % 2 + ones(x / 2)
    }
}

/// Bit `j` of a byte.
pub open spec fn bit8(x: u8, j: int) -> bool {
    (x >> (j as u8)) & 1u8 == 1u8
}

/// The byte whose bit `j` is `f(j)`.
pub open spec fn byte_of(f: spec_fn(int) -> bool) -> u8 {
    let b = |j: int| if f(j) { 1int } else { 0int };
    (b(0) + 2 * b(1) + 4 * b(2) + 8 * b(3) + 16 * b(4) + 32 * b(5) + 64 * b(6) + 128 * b(7)) as u8
}

/// Rotation of a word to the left, by any amount.
pub open spec fn rotl(x: u64, r: int) -> u64 {
    let s = (r % 64) as u64;
    if s == 0 {
        x
    } else {
        (x << s) | (x >> ((64 - s) as u64))
    }
}

/// Rotation of a word to the right, by any amount.
pub open spec fn rotr(x: u64, r: int) -> u64 {
    let s = (r % 64) as u64;
    if s == 0 {
        x
    } else {
        (x >> s) | (x << ((64 - s) as u64))
    }
}

/// Rotates a word to the left.
pub fn rotate_left(x: u64, r: u32) -> (y: u64)
    ensures
        y == rotl(x, r as int),
{
    let s: u64 = (r % 64) as u64;
    if s == 0 {
        x
    } else {
        (x << s) | (x >> (64 - s))
    }
}

/// Rotates a word to the right.
pub fn rotate_right(x: u64, r: u32) -> (y: u64)
    ensures
        y == rotr(x, r as int),
{
    let s: u64 = (r % 64) as u64;
    if s == 0 {
        x
    } else {
        (x >> s) | (x << (64 - s))
    }
}

/// The two rotations undo each other.
pub proof fn lemma_rotations_invert(x: u64, r: int)
    ensures
        rotr(rotl(x, r), r) == x,
        rotl(rotr(x, r), r) == x,
{
    let s = (r % 64) as u64;
    let t = (64 - s) as u64;
    if s != 0 {
        let y = (x << s) | (x >> t);
        let z = (x >> s) | (x << t);
        assert((y >> s) | (y << t) == x) by (bit_vector)
            requires
                0 < s < 64,
                s + t == 64,
                y == (x << s) | (x >> t),
        ;
        assert((z << s) | (z >> t) == x) by (bit_vector)
            requires
                0 < s < 64,
                s + t == 64,
                z == (x >> s) | (x << t),
        ;
    }
}

/// A number below `2^k` has at most `k` one bits.
pub proof fn lemma_ones_bound(x: nat, k: nat)
    requires
        x < pow2(k),
    ensures
        ones(x) <= k,
    decreases k,
{
    if k == 0 {
        vstd::arithmetic::power2::lemma2_to64();
    } else {
        vstd::arithmetic::power2::lemma_pow2_unfold(k);
        if x != 0 {
            lemma_ones_bound(x / 2, (k - 1) as nat);
        }
    }
}

/// A word has at most 64 one bits.
pub proof fn lemma_ones_u64(x: u64)
    ensures
        ones(x as nat) <= 64,
{
    vstd::arithmetic::power2::lemma2_to64_rest();
    lemma_ones_bound(x as nat, 64);
}

/// Counts the one bits of a word.
pub fn count_ones(x: u64) -> (c: u32)
    ensures
        c == ones(x as nat),
        c <= 64,
{
    let mut rest: u64 = x;
    let mut c: u32 = 0;
    proof {
        lemma_ones_u64(x);
    }
    while rest != 0
        invariant
            c + ones(rest as nat) == ones(x as nat),
            ones(x as nat) <= 64,
        decreases rest,
    {
        c = c + (rest % 2) as u32;
        rest = rest / 2;
    }
    c
}

/// Whether a number is a power of two.
pub fn is_power_of_two(n: usize) -> (b: bool)
    ensures
        b == is_pow2(n as int),
{
    proof {
        reveal(is_pow2);
    }
    if n == 0 {
        return false;
    }
    let mut m: usize = n;
    while m % 2 == 0
        invariant
            m > 0,
            is_pow2(m as int) == is_pow2(n as int),
        decreases m,
    {
        proof {
            reveal(is_pow2);
        }
        m = m / 2;
    }
    m == 1
}

/// The `n` little-endian bytes of `v`.
pub open spec fn le_bytes(v: nat, n: nat) -> Seq<u8>
    decreases n,
{
    if n == 0 {
        Seq::empty()
    } else {
        seq![(v % 256) as u8] + le_bytes(v / 256, (n - 1) as nat)
    }
}

/// The number that little-endian bytes stand for.
pub open spec fn le_value(s: Seq<u8>) -> nat
    decreases s.len(),
{
    if s.len() == 0 {
        0
    } else {
        s[0] as nat + 256 * le_value(s.drop_first())
    }
}

pub proof fn lemma_le_bytes_len(v: nat, n: nat)
    ensures
        le_bytes(v, n).len() == n,
    decreases n,
{
    if n > 0 {
        lemma_le_bytes_len(v / 256, (n - 1) as nat);
    }
}

/// Reading little-endian bytes gives back the number that was written, as
/// long as it fits.
pub proof fn lemma_le_roundtrip(v: nat, n: nat)
    requires
        v < pow2(8 * n),
    ensures
        le_value(le_bytes(v, n)) == v,
        le_bytes(v, n).len() == n,
    decreases n,
{
    lemma_le_bytes_len(v, n);
    if n == 0 {
        vstd::arithmetic::power2::lemma2_to64();
    } else {
        let rest = le_bytes(v / 256, (n - 1) as nat);
        vstd::arithmetic::power2::lemma_pow2_adds(8, (8 * (n - 1)) as nat);
        vstd::arithmetic::power2::lemma2_to64();
        assert(v / 256 < pow2((8 * (n - 1)) as nat)) by (nonlinear_arith)
            requires
                v < 256 * pow2((8 * (n - 1)) as nat),
        ;
        lemma_le_roundtrip(v / 256, (n - 1) as nat);
        assert(le_bytes(v, n).drop_first() =~= rest);
    }
}

/// Little-endian bytes stand for a number that fits in them, and writing
/// that number gives the bytes back.
pub proof fn lemma_le_value(s: Seq<u8>)
    ensures
        le_value(s) < pow2(8 * s.len()),
        le_bytes(le_value(s), s.len()) =~= s,
    decreases s.len(),
{
    if s.len() == 0 {
        vstd::arithmetic::power2::lemma2_to64();
    } else {
        let rest = s.drop_first();
        lemma_le_value(rest);
        vstd::arithmetic::power2::lemma_pow2_adds(8, 8 * rest.len());
        vstd::arithmetic::power2::lemma2_to64();
        assert(8 + 8 * rest.len() == 8 * s.len());
        assert(le_value(s) / 256 == le_value(rest));
        assert(le_value(s) % 256 == s[0] as nat);
    }
}

/// Appends the little-endian bytes of a number.
pub fn push_le(out: &mut Vec<u8>, value: u64, n: usize)
    ensures
        final(out)@ == old(out)@ + le_bytes(value as nat, n as nat),
{
    let mut rest: u64 = value;
    let mut k: usize = 0;
    assert(out@ + le_bytes(value as nat, n as nat) =~= out@ + le_bytes(rest as nat, (n - k) as nat));
    while k < n
        invariant
            k <= n,
            old(out)@ + le_bytes(value as nat, n as nat) == out@ + le_bytes(rest as nat, (n - k) as nat),
        decreases n - k,
    {
        let ghost before = out@;
        let ghost tail = le_bytes((rest / 256) as nat, (n - k - 1) as nat);
        out.push((rest % 256) as u8);
        assert(before + le_bytes(rest as nat, (n - k) as nat) =~= out@ + tail);
        rest = rest / 256;
        k = k + 1;
    }
    assert(out@ + le_bytes(rest as nat, 0) =~= out@);
}

/// Appends a number as four little-endian bytes.
pub fn push_u32(out: &mut Vec<u8>, value: u32)
    ensures
        final(out)@ == old(out)@ + le_bytes(value as nat, 4),
{
    push_le(out, value as u64, 4);
}

/// Appends a number as eight little-endian bytes.
pub fn push_u64(out: &mut Vec<u8>, value: u64)
    ensures
        final(out)@ == old(out)@ + le_bytes(value as nat, 8),
{
    push_le(out, value, 8);
}

/// Reads up to eight little-endian bytes, starting at `at`.
pub fn read_le(bytes: &[u8], at: usize, n: usize) -> (v: u64)
    requires
        n <= 8,
        at + n <= bytes@.len(),
    ensures
        v == le_value(bytes@.subrange(at as int, at + n)),
{
    let mut v: u64 = 0;
    let mut k: usize = n;
    assert(bytes@.subrange(at + n, at + n) =~= Seq::<u8>::empty());
    while k > 0
        invariant
            k <= n <= 8,
            at + n <= bytes.len(),
            v == le_value(bytes@.subrange(at + k, at + n)),
        decreases k,
    {
        let ghost s = bytes@.subrange(at + k - 1, at + n);
        proof {
            lemma_le_value(s);
            assert(s.drop_first() =~= bytes@.subrange(at + k, at + n));
            vstd::arithmetic::power2::lemma2_to64_rest();
            if s.len() < 8 {
                vstd::arithmetic::power2::lemma_pow2_strictly_increases(8 * s.len(), 64);
            }
        }
        k = k - 1;
        let i: usize = at + k;
        v = v * 256 + bytes[i] as u64;
    }
    v
}

/// The complete eight-byte words of a byte string.
pub open spec fn words_of(bytes: Seq<u8>) -> Seq<u64> {
    Seq::new(bytes.len() / 8, |i: int| le_value(bytes.subrange(8 * i, 8 * i + 8)) as u64)
}

/// Reads the complete words of a byte string.
pub fn to_words(bytes: &[u8]) -> (words: Vec<u64>)
    ensures
        words@ == words_of(bytes@),
{
    let n: usize = bytes.len() / 8;
    let mut words: Vec<u64> = Vec::new();
    for i in 0..n
        invariant
            n == bytes.len() / 8,
            words@ =~= words_of(bytes@).take(i as int),
    {
        words.push(read_le(bytes, 8 * i, 8));
    }
    assert(words_of(bytes@).take(n as int) =~= words_of(bytes@));
    words
}

/// The little-endian bytes of words, one after the other.
pub open spec fn word_bytes(words: Seq<u64>) -> Seq<u8>
    decreases words.len(),
{
    if words.len() == 0 {
        Seq::empty()
    } else {
        word_bytes(words.drop_last()) + le_bytes(words.last() as nat, 8)
    }
}

/// Byte `p` of words written out.
pub proof fn lemma_word_bytes(words: Seq<u64>)
    ensures
        word_bytes(words).len() == 8 * words.len(),
        forall|i: int|
            0 <= i < words.len() ==> word_bytes(words).subrange(8 * i, 8 * i + 8)
                == #[trigger] le_bytes(words[i] as nat, 8),
    decreases words.len(),
{
    if words.len() > 0 {
        let front = words.drop_last();
        lemma_word_bytes(front);
        lemma_le_bytes_len(words.last() as nat, 8);
        assert forall|i: int| 0 <= i < words.len() implies word_bytes(words).subrange(
            8 * i,
            8 * i + 8,
        ) == #[trigger] le_bytes(words[i] as nat, 8) by {
            if i < front.len() {
                assert(words[i] == front[i]);
                assert(word_bytes(words).subrange(8 * i, 8 * i + 8) =~= word_bytes(front).subrange(
                    8 * i,
                    8 * i + 8,
                ));
            } else {
                assert(word_bytes(words).subrange(8 * i, 8 * i + 8) =~= le_bytes(
                    words.last() as nat,
                    8,
                ));
            }
        }
    }
}

/// Writing the words of whole words gives the bytes back.
pub proof fn lemma_words_roundtrip(bytes: Seq<u8>)
    requires
        bytes.len() % 8 == 0,
    ensures
        word_bytes(words_of(bytes)) == bytes,
{
    let words = words_of(bytes);
    let out = word_bytes(words);
    lemma_word_bytes(words);
    assert forall|p: int| 0 <= p < bytes.len() implies out[p] == bytes[p] by {
        let i = p / 8;
        let s = bytes.subrange(8 * i, 8 * i + 8);
        lemma_le_value(s);
        vstd::arithmetic::power2::lemma2_to64_rest();
        assert(le_bytes(words[i] as nat, 8) == s);
        assert(out.subrange(8 * i, 8 * i + 8)[p - 8 * i] == s[p - 8 * i]);
    }
    assert(out =~= bytes);
}

/// Bit `j` of `byte_of(f)` is `f(j)`.
pub proof fn lemma_byte_of(f: spec_fn(int) -> bool, j: int)
    requires
        0 <= j < 8,
    ensures
        bit8(byte_of(f), j) == f(j),
{
    let b = |k: int| if f(k) { 1u8 } else { 0u8 };
    let (b0, b1, b2, b3) = (b(0), b(1), b(2), b(3));
    let (b4, b5, b6, b7) = (b(4), b(5), b(6), b(7));
    let x = byte_of(f);
    assert((x >> 0) & 1 == b0 && (x >> 1) & 1 == b1 && (x >> 2) & 1 == b2 && (x >> 3) & 1 == b3
        && (x >> 4) & 1 == b4 && (x >> 5) & 1 == b5 && (x >> 6) & 1 == b6 && (x >> 7) & 1 == b7)
        by (bit_vector)
        requires
            b0 <= 1 && b1 <= 1 && b2 <= 1 && b3 <= 1 && b4 <= 1 && b5 <= 1 && b6 <= 1 && b7 <= 1,
            x == b0 + 2 * b1 + 4 * b2 + 8 * b3 + 16 * b4 + 32 * b5 + 64 * b6 + 128 * b7,
    ;
}

/// A byte is determined by its bits.
pub proof fn lemma_byte_ext(x: u8, y: u8)
    requires
        forall|j: int| 0 <= j < 8 ==> bit8(x, j) == bit8(y, j),
    ensures
        x == y,
{
    assert(bit8(x, 0) == bit8(y, 0) && bit8(x, 1) == bit8(y, 1) && bit8(x, 2) == bit8(y, 2)
        && bit8(x, 3) == bit8(y, 3) && bit8(x, 4) == bit8(y, 4) && bit8(x, 5) == bit8(y, 5)
        && bit8(x, 6) == bit8(y, 6) && bit8(x, 7) == bit8(y, 7));
    assert(x == y) by (bit_vector)
        requires
            ((x >> 0u8) & 1u8 == 1u8) == ((y >> 0u8) & 1u8 == 1u8),
            ((x >> 1u8) & 1u8 == 1u8) == ((y >> 1u8) & 1u8 == 1u8),
            ((x >> 2u8) & 1u8 == 1u8) == ((y >> 2u8) & 1u8 == 1u8),
            ((x >> 3u8) & 1u8 == 1u8) == ((y >> 3u8) & 1u8 == 1u8),
            ((x >> 4u8) & 1u8 == 1u8) == ((y >> 4u8) & 1u8 == 1u8),
            ((x >> 5u8) & 1u8 == 1u8) == ((y >> 5u8) & 1u8 == 1u8),
            ((x >> 6u8) & 1u8 == 1u8) == ((y >> 6u8) & 1u8 == 1u8),
            ((x >> 7u8) & 1u8 == 1u8) == ((y >> 7u8) & 1u8 == 1u8),
    ;
}

/// Setting bit `b` of a byte.
pub proof fn lemma_set_bit8(x: u8, b: u8, j: u8)
    requires
        b < 8,
        j < 8,
    ensures
        bit8(x | (1u8 << b), j as int) == (j == b || bit8(x, j as int)),
        !bit8(0, j as int),
{
    assert((((x | (1u8 << b)) >> j) & 1u8 == 1u8) == (j == b || (x >> j) & 1u8 == 1u8)
        && (0u8 >> j) & 1u8 == 0u8) by (bit_vector)
        requires
            b < 8,
            j < 8,
    ;
}

/// The lowest `n` bits of a number, the lowest first.
pub open spec fn low_bits(value: nat, n: nat) -> Seq<bool>
    decreases n,
{
    if n == 0 {
        Seq::empty()
    } else {
        seq![value % 2 == 1] + low_bits(value / 2, (n - 1) as nat)
    }
}

/// The number whose bits, the lowest first, are given.
pub open spec fn bits_number(bits: Seq<bool>) -> nat
    decreases bits.len(),
{
    if bits.len() == 0 {
        0
    } else {
        (if bits[0] {
            1nat
        } else {
            0nat
        }) + 2 * bits_number(bits.skip(1))
    }
}

/// The low bits of a number are as many as asked for, and make up the number.
pub proof fn lemma_low_bits(value: nat, n: nat)
    ensures
        low_bits(value, n).len() == n,
        bits_number(low_bits(value, n)) == value % pow2(n),
    decreases n,
{
    vstd::arithmetic::power2::lemma2_to64();
    if n > 0 {
        let m = (n - 1) as nat;
        lemma_low_bits(value / 2, m);
        let bits = low_bits(value, n);
        assert(bits.skip(1) =~= low_bits(value / 2, m));
        vstd::arithmetic::power2::lemma_pow2_unfold(n);
        vstd::arithmetic::power2::lemma_pow2_pos(m);
        let p = pow2(m) as int;
        vstd::arithmetic::div_mod::lemma_breakdown(value as int, 2, p);
    }
}

/// The bits of a number are found in the number.
pub proof fn lemma_bits_number(bits: Seq<bool>)
    ensures
        low_bits(bits_number(bits), bits.len()) == bits,
        bits_number(bits) < pow2(bits.len()),
    decreases bits.len(),
{
    vstd::arithmetic::power2::lemma2_to64();
    if bits.len() > 0 {
        let rest = bits.skip(1);
        let n = bits.len();
        lemma_bits_number(rest);
        vstd::arithmetic::power2::lemma_pow2_unfold(n);
        let v = bits_number(bits);
        assert(v / 2 == bits_number(rest));
        assert((v % 2 == 1) == bits[0]);
        assert(low_bits(v, n) =~= bits);
    }
}

/// Adding a word twice, bit by bit, leaves things as they were. Of single bits,
/// the sum tells whether they differ.
pub proof fn lemma_xor(a: u64, b: u64)
    ensures
        (a ^ b) ^ b == a,
        a ^ b == b ^ a,
        a ^ a == 0,
        a ^ 0 == a,
        a & 0 == 0,
        a <= 1 && b <= 1 ==> a ^ b == (if a == b {
            0u64
        } else {
            1u64
        }),
{
    assert((a ^ b) ^ b == a && a ^ b == b ^ a && a ^ a == 0 && a ^ 0 == a && a & 0 == 0 && (a <= 1
        && b <= 1 ==> a ^ b == (if a == b {
        0u64
    } else {
        1u64
    }))) by (bit_vector);
}

/// A byte is made up of its eight bits.
pub proof fn lemma_byte_bits(x: u8)
    ensures
        ({
            let b = |j: int| if bit8(x, j) { 1int } else { 0int };
            &&& x == b(0) + 2 * b(1) + 4 * b(2) + 8 * b(3) + 16 * b(4) + 32 * b(5) + 64 * b(6)
                + 128 * b(7)
            &&& ones(x as nat) == b(0) + b(1) + b(2) + b(3) + b(4) + b(5) + b(6) + b(7)
        }),
{
    let b = |j: int| if bit8(x, j) { 1int } else { 0int };
    assert((x >> 0u8) & 1 == x % 2 && (x >> 1u8) & 1 == (x / 2) % 2 && (x >> 2u8) & 1 == (x / 4) % 2
        && (x >> 3u8) & 1 == (x / 8) % 2 && (x >> 4u8) & 1 == (x / 16) % 2 && (x >> 5u8) & 1 == (x
        / 32) % 2 && (x >> 6u8) & 1 == (x / 64) % 2 && (x >> 7u8) & 1 == (x / 128) % 2)
        by (bit_vector);
    let n = x as nat;
    let (x1, x2, x3, x4) = (n / 2, n / 4, n / 8, n / 16);
    let (x5, x6, x7) = (n / 32, n / 64, n / 128);
    assert(x2 == x1 / 2 && x3 == x2 / 2 && x4 == x3 / 2 && x5 == x4 / 2 && x6 == x5 / 2 && x7 == x6
        / 2 && x7 / 2 == 0);
    lemma_ones_step(n);
    lemma_ones_step(x1);
    lemma_ones_step(x2);
    lemma_ones_step(x3);
    lemma_ones_step(x4);
    lemma_ones_step(x5);
    lemma_ones_step(x6);
    lemma_ones_step(x7);
    assert(b(0) == n % 2 && b(1) == x1 % 2 && b(2) == x2 % 2 && b(3) == x3 % 2 && b(4) == x4 % 2
        && b(5) == x5 % 2 && b(6) == x6 % 2 && b(7) == x7 % 2);
}

proof fn lemma_ones_step(x: nat)
    ensures
        ones(x) == x % 2 + ones(x / 2),
        ones(0) == 0,
{
}

/// Sums, bit by bit, can be regrouped.
pub proof fn lemma_xor_regroup(a: u64, b: u64, c: u64, d: u64)
    ensures
        (a ^ b) ^ (c ^ d) == (a ^ c) ^ (b ^ d),
{
    assert((a ^ b) ^ (c ^ d) == (a ^ c) ^ (b ^ d)) by (bit_vector);
}

/// A rotation is a sum of two shifts.
proof fn lemma_rotation_sum(x: u64, s: u64, t: u64)
    requires
        0 < s < 64,
        s + t == 64,
    ensures
        (x << s) | (x >> t) == (x << s) ^ (x >> t),
        (x >> s) | (x << t) == (x >> s) ^ (x << t),
{
    assert((x << s) | (x >> t) == (x << s) ^ (x >> t) && (x >> s) | (x << t) == (x >> s) ^ (x << t))
        by (bit_vector)
        requires
            0 < s < 64,
            s + t == 64,
    ;
}

proof fn lemma_shift_linear(a: u64, b: u64, s: u64)
    requires
        s < 64,
    ensures
        (a ^ b) << s == (a << s) ^ (b << s),
        (a ^ b) >> s == (a >> s) ^ (b >> s),
{
    assert((a ^ b) << s == (a << s) ^ (b << s)) by (bit_vector)
        requires
            s < 64,
    ;
    assert((a ^ b) >> s == (a >> s) ^ (b >> s)) by (bit_vector)
        requires
            s < 64,
    ;
}

/// A rotated sum, bit by bit, is the sum of what is rotated.
pub proof fn lemma_rotation_linear(a: u64, b: u64, r: int)
    ensures
        rotl(a ^ b, r) == rotl(a, r) ^ rotl(b, r),
        rotr(a ^ b, r) == rotr(a, r) ^ rotr(b, r),
{
    let s = (r % 64) as u64;
    let t = (64 - s) as u64;
    if s != 0 {
        lemma_rotation_sum(a, s, t);
        lemma_rotation_sum(b, s, t);
        lemma_rotation_sum(a ^ b, s, t);
        lemma_shift_linear(a, b, s);
        lemma_shift_linear(a, b, t);
        lemma_xor_regroup(a << s, b << s, a >> t, b >> t);
        lemma_xor_regroup(a >> s, b >> s, a << t, b << t);
    }
}

/// A rotation to the left moves every bit up by the amount, and the bits that
/// leave at the top come back at the bottom.
pub proof fn law_rotation_moves_bits(x: u64, r: int, i: u64)
    requires
        i < 64,
    ensures
        ({
            let to = ((i + r) % 64) as u64;
            &&& (rotl(x, r) >> to) & 1 == (x >> i) & 1
            &&& (rotr(x, r) >> i) & 1 == (x >> to) & 1
        }),
{
    let s = (r % 64) as u64;
    let to = ((i + r) % 64) as u64;
    let t = (64 - s) as u64;
    assert(to == (i + s) % 64);
    if s != 0 {
        let (y, z) = (rotl(x, r), rotr(x, r));
        assert((y >> to) & 1 == (x >> i) & 1 && (z >> i) & 1 == (x >> to) & 1) by (bit_vector)
            requires
                0 < s < 64,
                i < 64,
                s + t == 64,
                to == (i + s) % 64,
                y == (x << s) | (x >> t),
                z == (x >> s) | (x << t),
        ;
    }
}

} // verus!
