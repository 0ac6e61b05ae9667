//! Word operations that can be undone.
use vstd::prelude::*;

verus! {

/// The number of words.
pub const WORDS: u128 = 0x1_0000_0000_0000_0000;

/// Undoes `x ^ (x << shift)`: the shifts are taken off in doubling steps.
pub open spec fn unshifted_left(value: u64, shift: nat) -> u64
    decreases
        if shift < 64 {
            64 - shift
        } else {
            0
        },
{
    if shift == 0 || shift >= 64 {
        value
    } else {
        unshifted_left(value ^ (value << (shift as u64)), 2 * shift)
    }
}

/// Undoes `x ^ (x >> shift)`: the shifts are taken off in doubling steps.
pub open spec fn unshifted_right(value: u64, shift: nat) -> u64
    decreases
        if shift < 64 {
            64 - shift
        } else {
            0
        },
{
    if shift == 0 || shift >= 64 {
        value
    } else {
        unshifted_right(value ^ (value >> (shift as u64)), 2 * shift)
    }
}

proof fn lemma_unshift_left(x: u64, shift: nat)
    requires
        1 <= shift < 64,
    ensures
        unshifted_left(x ^ (x << (shift as u64)), shift) == x,
    decreases 64 - shift,
{
    let s = shift as u64;
    let t = (2 * shift) as u64;
    let y = x ^ (x << s);
    assert(y ^ (y << s) == (if t < 64 {
        x ^ (x << t)
    } else {
        x
    })) by (bit_vector)
        requires
            1 <= s < 64,
            t == 2 * s,
            y == x ^ (x << s),
    ;
    if 2 * shift < 64 {
        lemma_unshift_left(x, 2 * shift);
    } else {
        assert(unshifted_left(x, 2 * shift) == x);
    }
}

proof fn lemma_unshift_right(x: u64, shift: nat)
    requires
        1 <= shift < 64,
    ensures
        unshifted_right(x ^ (x >> (shift as u64)), shift) == x,
    decreases 64 - shift,
{
    let s = shift as u64;
    let t = (2 * shift) as u64;
    let y = x ^ (x >> s);
    assert(y ^ (y >> s) == (if t < 64 {
        x ^ (x >> t)
    } else {
        x
    })) by (bit_vector)
        requires
            1 <= s < 64,
            t == 2 * s,
            y == x ^ (x >> s),
    ;
    if 2 * shift < 64 {
        lemma_unshift_right(x, 2 * shift);
    } else {
        assert(unshifted_right(x, 2 * shift) == x);
    }
}

/// Shifting left and taking the shift off again undo each other.
pub proof fn law_shift_left_is_undone(x: u64, shift: nat)
    requires
        1 <= shift < 64,
    ensures
        unshifted_left(x ^ (x << (shift as u64)), shift) == x,
        unshifted_left(x, shift) ^ (unshifted_left(x, shift) << (shift as u64)) == x,
    decreases 64 - shift,
{
    lemma_unshift_left(x, shift);
    let s = shift as u64;
    let t = (2 * shift) as u64;
    let u = unshifted_left(x, shift);
    let w = u ^ (u << s);
    assert(w ^ (w << s) == (if t < 64 {
        u ^ (u << t)
    } else {
        u
    })) by (bit_vector)
        requires
            1 <= s < 64,
            t == 2 * s,
            w == u ^ (u << s),
    ;
    if 2 * shift < 64 {
        law_shift_left_is_undone(x ^ (x << s), 2 * shift);
    } else {
        assert(unshifted_left(x ^ (x << s), 2 * shift) == x ^ (x << s));
    }
    lemma_unshift_left(w, shift);
}

/// Shifting right and taking the shift off again undo each other.
pub proof fn law_shift_right_is_undone(x: u64, shift: nat)
    requires
        1 <= shift < 64,
    ensures
        unshifted_right(x ^ (x >> (shift as u64)), shift) == x,
        unshifted_right(x, shift) ^ (unshifted_right(x, shift) >> (shift as u64)) == x,
    decreases 64 - shift,
{
    lemma_unshift_right(x, shift);
    let s = shift as u64;
    let t = (2 * shift) as u64;
    let u = unshifted_right(x, shift);
    let w = u ^ (u >> s);
    assert(w ^ (w >> s) == (if t < 64 {
        u ^ (u >> t)
    } else {
        u
    })) by (bit_vector)
        requires
            1 <= s < 64,
            t == 2 * s,
            w == u ^ (u >> s),
    ;
    if 2 * shift < 64 {
        law_shift_right_is_undone(x ^ (x >> s), 2 * shift);
    } else {
        assert(unshifted_right(x ^ (x >> s), 2 * shift) == x ^ (x >> s));
    }
    lemma_unshift_right(w, shift);
}

/// Takes a left shift off.
pub(crate) fn invert_xorshift_left(value: u64, shift: u32) -> (restored: u64)
    requires
        shift >= 1,
    ensures
        restored == unshifted_left(value, shift as nat),
{
    let mut restored: u64 = value;
    let mut offset: u32 = shift;
    while offset < 64
        invariant
            offset >= 1,
            unshifted_left(value, shift as nat) == unshifted_left(restored, offset as nat),
        decreases
                if offset < 64 {
                    64 - offset
                } else {
                    0
                },
    {
        restored = restored ^ (restored << (offset as u64));
        offset = offset * 2;
    }
    restored
}

/// Takes a right shift off.
pub(crate) fn invert_xorshift_right(value: u64, shift: u32) -> (restored: u64)
    requires
        shift >= 1,
    ensures
        restored == unshifted_right(value, shift as nat),
{
    let mut restored: u64 = value;
    let mut offset: u32 = shift;
    while offset < 64
        invariant
            offset >= 1,
            unshifted_right(value, shift as nat) == unshifted_right(restored, offset as nat),
        decreases
                if offset < 64 {
                    64 - offset
                } else {
                    0
                },
    {
        restored = restored ^ (restored >> (offset as u64));
        offset = offset * 2;
    }
    restored
}

/// The word that an odd word is multiplied with to give one.
pub open spec fn inverse_odd(value: u64) -> u64 {
    choose|i: u64| #[trigger] value.wrapping_mul(i) == 1
}

/// Products of words can be regrouped.
proof fn lemma_wrapping_regroup(a: u64, b: u64, c: u64)
    ensures
        a.wrapping_mul(b).wrapping_mul(c) == a.wrapping_mul(b.wrapping_mul(c)),
        a.wrapping_mul(b) == b.wrapping_mul(a),
{
    let m = WORDS as int;
    let (x, y, z) = (a as int, b as int, c as int);
    vstd::arithmetic::div_mod::lemma_mul_mod_noop_left(x * y, z, m);
    vstd::arithmetic::div_mod::lemma_mul_mod_noop_right(x, y * z, m);
    assert((x * y) * z == x * (y * z)) by (nonlinear_arith);
    assert(x * y == y * x) by (nonlinear_arith);
}

/// An inverse is unique.
proof fn lemma_inverse_unique(value: u64, i: u64)
    requires
        value.wrapping_mul(i) == 1,
    ensures
        inverse_odd(value) == i,
{
    let j = inverse_odd(value);
    assert(value.wrapping_mul(j) == 1);
    lemma_wrapping_regroup(i, value, j);
    lemma_wrapping_regroup(j, value, i);
    assert(i.wrapping_mul(1) == i && j.wrapping_mul(1) == j);
    lemma_wrapping_regroup(i, value, i);
    lemma_wrapping_regroup(j, 1, 1);
    assert(i.wrapping_mul(value) == 1);
    assert(1u64.wrapping_mul(j) == j);
}

/// One step doubles the number of correct bits.
proof fn lemma_newton_step(v: u64, i: u64, m: int, n: int)
    requires
        m > 0,
        n > 0,
        (m * m) % n == 0,
        WORDS % (n as u128) == 0,
        n <= WORDS,
        (v * i - 1) % m == 0,
    ensures
        (v * i.wrapping_mul(2u64.wrapping_sub(v.wrapping_mul(i))) - 1) % n == 0,
{
    let w = WORDS as int;
    let (x, y) = (v as int, i as int);
    let q = (x * y - 1) / m;
    vstd::arithmetic::div_mod::lemma_fundamental_div_mod(x * y - 1, m);
    let p = v.wrapping_mul(i) as int;
    let k1 = (x * y) / w;
    vstd::arithmetic::div_mod::lemma_fundamental_div_mod(x * y, w);
    let d = 2u64.wrapping_sub(v.wrapping_mul(i)) as int;
    assert(d == 2 - p || d == 2 - p + w);
    let k2: int = if d == 2 - p {
        0
    } else {
        1
    };
    let r = i.wrapping_mul(d as u64) as int;
    let k3 = (y * d) / w;
    vstd::arithmetic::div_mod::lemma_fundamental_div_mod(y * d, w);
    let c = w / n;
    let e = (m * m) / n;
    vstd::arithmetic::div_mod::lemma_fundamental_div_mod(w, n);
    vstd::arithmetic::div_mod::lemma_fundamental_div_mod(m * m, n);
    let a = x * y;
    let b = m * q;
    assert(x * r == a * d - w * (x * k3)) by (nonlinear_arith)
        requires
            r == y * d - w * k3,
            a == x * y,
    ;
    assert(a * d == 2 * a - a * a + w * (a * (k1 + k2))) by (nonlinear_arith)
        requires
            d == 2 - (a - w * k1) + w * k2,
    ;
    assert(2 * a - a * a == 1 - b * b) by (nonlinear_arith)
        requires
            a == 1 + b,
    ;
    let g = a * (k1 + k2) - x * k3;
    assert(w * g == w * (a * (k1 + k2)) - w * (x * k3)) by (nonlinear_arith)
        requires
            g == a * (k1 + k2) - x * k3,
    ;
    let h = c * g - e * (q * q);
    assert(b * b == n * (e * (q * q))) by (nonlinear_arith)
        requires
            b == m * q,
            m * m == n * e,
    ;
    assert(w * g == n * (c * g)) by (nonlinear_arith)
        requires
            w == n * c,
    ;
    assert(n * h == n * (c * g) - n * (e * (q * q))) by (nonlinear_arith)
        requires
            h == c * g - e * (q * q),
    ;
    assert(x * r - 1 == n * h);
    vstd::arithmetic::div_mod::lemma_mod_multiples_basic(h, n);
    assert(h * n == n * h) by (nonlinear_arith);
}

/// The square of an odd word is one more than a multiple of eight.
proof fn lemma_odd_square(v: u64)
    requires
        v % 2 == 1,
    ensures
        (v * v - 1) % 8 == 0,
{
    let h = (v / 2) as int;
    let x = v as int;
    assert(x == 2 * h + 1);
    assert(x * x - 1 == 4 * (h * (h + 1))) by (nonlinear_arith)
        requires
            x == 2 * h + 1,
    ;
    let k = h / 2;
    if h % 2 == 0 {
        assert(h * (h + 1) == 2 * (k * (h + 1))) by (nonlinear_arith)
            requires
                h == 2 * k,
        ;
    } else {
        assert(h * (h + 1) == 2 * (h * (k + 1))) by (nonlinear_arith)
            requires
                h == 2 * k + 1,
        ;
    }
}

/// Finds the inverse of an odd word.
pub(crate) fn modular_inverse_odd(value: u64) -> (inverse: u64)
    requires
        value % 2 == 1,
    ensures
        inverse == inverse_odd(value),
        value.wrapping_mul(inverse) == 1,
{
    let i0: u64 = value;
    let i1: u64 = i0.wrapping_mul(2u64.wrapping_sub(value.wrapping_mul(i0)));
    let i2: u64 = i1.wrapping_mul(2u64.wrapping_sub(value.wrapping_mul(i1)));
    let i3: u64 = i2.wrapping_mul(2u64.wrapping_sub(value.wrapping_mul(i2)));
    let i4: u64 = i3.wrapping_mul(2u64.wrapping_sub(value.wrapping_mul(i3)));
    let i5: u64 = i4.wrapping_mul(2u64.wrapping_sub(value.wrapping_mul(i4)));
    let i6: u64 = i5.wrapping_mul(2u64.wrapping_sub(value.wrapping_mul(i5)));
    proof {
        lemma_odd_square(value);
        lemma_newton_step(value, i0, 0x8, 0x40);
        lemma_newton_step(value, i1, 0x40, 0x1000);
        lemma_newton_step(value, i2, 0x1000, 0x100_0000);
        lemma_newton_step(value, i3, 0x100_0000, 0x1_0000_0000_0000);
        lemma_newton_step(value, i4, 0x1_0000_0000_0000, WORDS as int);
        lemma_newton_step(value, i5, WORDS as int, WORDS as int);
        lemma_one_more(value * i6, WORDS as int);
        lemma_inverse_unique(value, i6);
    }
    i6
}

proof fn lemma_one_more(a: int, m: int)
    requires
        m > 1,
        (a - 1) % m == 0,
    ensures
        a % m == 1,
{
    vstd::arithmetic::div_mod::lemma_fundamental_div_mod(a - 1, m);
    vstd::arithmetic::mul::lemma_mul_is_commutative(m, (a - 1) / m);
    vstd::arithmetic::div_mod::lemma_fundamental_div_mod_converse(a, m, (a - 1) / m, 1);
}

/// Multiplying with an odd word and with its inverse undo each other.
pub proof fn law_odd_product_is_undone(x: u64, factor: u64)
    requires
        factor % 2 == 1,
    ensures
        x.wrapping_mul(factor).wrapping_mul(inverse_odd(factor)) == x,
        x.wrapping_mul(inverse_odd(factor)).wrapping_mul(factor) == x,
{
    lemma_inverse_exists(factor);
    let i = inverse_odd(factor);
    lemma_wrapping_regroup(x, factor, i);
    lemma_wrapping_regroup(x, i, factor);
    lemma_wrapping_regroup(i, factor, 1);
}

/// Every odd word has an inverse.
proof fn lemma_inverse_exists(value: u64)
    requires
        value % 2 == 1,
    ensures
        value.wrapping_mul(inverse_odd(value)) == 1,
{
    let i0: u64 = value;
    let i1: u64 = i0.wrapping_mul(2u64.wrapping_sub(value.wrapping_mul(i0)));
    let i2: u64 = i1.wrapping_mul(2u64.wrapping_sub(value.wrapping_mul(i1)));
    let i3: u64 = i2.wrapping_mul(2u64.wrapping_sub(value.wrapping_mul(i2)));
    let i4: u64 = i3.wrapping_mul(2u64.wrapping_sub(value.wrapping_mul(i3)));
    let i5: u64 = i4.wrapping_mul(2u64.wrapping_sub(value.wrapping_mul(i4)));
    lemma_odd_square(value);
    lemma_newton_step(value, i0, 0x8, 0x40);
    lemma_newton_step(value, i1, 0x40, 0x1000);
    lemma_newton_step(value, i2, 0x1000, 0x100_0000);
    lemma_newton_step(value, i3, 0x100_0000, 0x1_0000_0000_0000);
    lemma_newton_step(value, i4, 0x1_0000_0000_0000, WORDS as int);
    lemma_one_more(value * i5, WORDS as int);
    assert(value.wrapping_mul(i5) == 1);
}

/// A word with its bits in the opposite order: neighbours change places, then
/// pairs, and so on up to the two halves.
pub open spec fn reversed(x: u64) -> u64 {
    let a = ((x >> 1) & 0x5555_5555_5555_5555u64) | ((x & 0x5555_5555_5555_5555u64) << 1);
    let b = ((a >> 2) & 0x3333_3333_3333_3333u64) | ((a & 0x3333_3333_3333_3333u64) << 2);
    let c = ((b >> 4) & 0x0F0F_0F0F_0F0F_0F0Fu64) | ((b & 0x0F0F_0F0F_0F0F_0F0Fu64) << 4);
    let d = ((c >> 8) & 0x00FF_00FF_00FF_00FFu64) | ((c & 0x00FF_00FF_00FF_00FFu64) << 8);
    let e = ((d >> 16) & 0x0000_FFFF_0000_FFFFu64) | ((d & 0x0000_FFFF_0000_FFFFu64) << 16);
    (e >> 32) | (e << 32)
}

/// Bit `i` of the reversed word is bit `63 - i` of the word, and reversing
/// twice changes nothing.
pub proof fn law_reversed(x: u64, i: u64)
    requires
        i < 64,
    ensures
        (reversed(x) >> i) & 1 == (x >> ((63 - i) as u64)) & 1,
        reversed(reversed(x)) == x,
{
    let j = (63 - i) as u64;
    assert((reversed(x) >> i) & 1 == (x >> j) & 1 && reversed(reversed(x)) == x) by (bit_vector)
        requires
            i < 64,
            j == 63 - i,
    ;
}

/// Reverses the bits of a word.
pub(crate) fn reverse_bits(x: u64) -> (r: u64)
    ensures
        r == reversed(x),
{
    let a: u64 = ((x >> 1) & 0x5555_5555_5555_5555) | ((x & 0x5555_5555_5555_5555) << 1);
    let b: u64 = ((a >> 2) & 0x3333_3333_3333_3333) | ((a & 0x3333_3333_3333_3333) << 2);
    let c: u64 = ((b >> 4) & 0x0F0F_0F0F_0F0F_0F0F) | ((b & 0x0F0F_0F0F_0F0F_0F0F) << 4);
    let d: u64 = ((c >> 8) & 0x00FF_00FF_00FF_00FF) | ((c & 0x00FF_00FF_00FF_00FF) << 8);
    let e: u64 = ((d >> 16) & 0x0000_FFFF_0000_FFFF) | ((d & 0x0000_FFFF_0000_FFFF) << 16);
    (e >> 32) | (e << 32)
}

} // verus!
