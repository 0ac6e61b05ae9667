//! The binary butterfly: a transform of bits that is its own inverse.
//!
//! It is the fast Walsh-Hadamard transform with its sums taken modulo two: a
//! step keeps the left half and puts the sum of both halves in place of the
//! right.
use vstd::prelude::*;
use vstd::arithmetic::power2::is_pow2;

verus! {

/// Where two sequences of bits differ.
pub open spec fn differ(a: Seq<bool>, b: Seq<bool>) -> Seq<bool> {
    Seq::new(a.len(), |k: int| a[k] != b[k])
}

/// The transform of a sequence whose length is a power of two.
pub open spec fn folded(x: Seq<bool>) -> Seq<bool>
    decreases x.len(),
{
    if x.len() <= 1 {
        x
    } else {
        let h = x.len() as int / 2;
        let a = folded(x.take(h));
        let b = folded(x.skip(h));
        a + differ(a, b)
    }
}

pub proof fn lemma_folded_len(x: Seq<bool>)
    requires
        is_pow2(x.len() as int),
    ensures
        folded(x).len() == x.len(),
    decreases x.len(),
{
    reveal(is_pow2);
    if x.len() > 1 {
        let h = x.len() as int / 2;
        lemma_folded_len(x.take(h));
        lemma_folded_len(x.skip(h));
    }
}

proof fn lemma_folded_linear(x: Seq<bool>, y: Seq<bool>)
    requires
        is_pow2(x.len() as int),
        x.len() == y.len(),
    ensures
        folded(differ(x, y)) == differ(folded(x), folded(y)),
    decreases x.len(),
{
    reveal(is_pow2);
    lemma_folded_len(x);
    lemma_folded_len(y);
    let d = differ(x, y);
    if x.len() > 1 {
        let h = x.len() as int / 2;
        lemma_folded_linear(x.take(h), y.take(h));
        lemma_folded_linear(x.skip(h), y.skip(h));
        lemma_folded_len(x.take(h));
        lemma_folded_len(x.skip(h));
        lemma_folded_len(y.take(h));
        lemma_folded_len(y.skip(h));
        assert(d.take(h) =~= differ(x.take(h), y.take(h)));
        assert(d.skip(h) =~= differ(x.skip(h), y.skip(h)));
        assert(folded(d) =~= differ(folded(x), folded(y)));
    } else {
        assert(folded(d) =~= differ(folded(x), folded(y)));
    }
}

/// Transformed twice, a sequence is what it was.
pub proof fn law_folded_self_inverse(x: Seq<bool>)
    requires
        is_pow2(x.len() as int),
    ensures
        folded(folded(x)) == x,
    decreases x.len(),
{
    reveal(is_pow2);
    if x.len() > 1 {
        let h = x.len() as int / 2;
        let (l, r) = (x.take(h), x.skip(h));
        let (a, b) = (folded(l), folded(r));
        let y = folded(x);
        lemma_folded_len(l);
        lemma_folded_len(r);
        assert(y.take(h) =~= a);
        assert(y.skip(h) =~= differ(a, b));
        lemma_folded_linear(a, b);
        law_folded_self_inverse(l);
        law_folded_self_inverse(r);
        assert(folded(y) =~= x);
    }
}

/// Transforms `len` bits starting at `lo`.
fn fold_range(data: &mut Vec<bool>, lo: usize, len: usize)
    requires
        is_pow2(len as int),
        lo + len <= old(data).len(),
    ensures
        final(data)@.len() == old(data)@.len(),
        final(data)@.subrange(lo as int, lo + len) == folded(
            old(data)@.subrange(lo as int, lo + len),
        ),
        forall|k: int|
            0 <= k < final(data)@.len() && !(lo <= k < lo + len) ==> #[trigger] final(data)@[k]
                == old(data)@[k],
    decreases len,
{
    let ghost x = data@.subrange(lo as int, lo + len);
    proof {
        reveal(is_pow2);
    }
    if len == 1 {
        return;
    }
    let h: usize = len / 2;
    let ghost before = data@;
    let ghost (l, r) = (x.take(h as int), x.skip(h as int));
    proof {
        assert(l =~= before.subrange(lo as int, lo + h));
        assert(r =~= before.subrange(lo + h, lo + h + h));
        lemma_folded_len(l);
        lemma_folded_len(r);
    }
    fold_range(data, lo, h);
    assert(data@.subrange(lo + h, lo + h + h) =~= before.subrange(lo + h, lo + h + h));
    let ghost middle = data@;
    fold_range(data, lo + h, h);
    let ghost (a, b) = (folded(l), folded(r));
    assert(data@.subrange(lo as int, lo + h) =~= middle.subrange(lo as int, lo + h));
    let ghost halves = data@;
    assert forall|k: int| 0 <= k < h implies halves[lo + k] == a[k] && halves[lo + h + k] == b[k] by {
        assert(halves.subrange(lo as int, lo + h)[k] == halves[lo + k]);
        assert(halves.subrange(lo + h, lo + h + h)[k] == halves[lo + h + k]);
    }
    for k in 0..h
        invariant
            h + h == len,
            lo + len <= data.len(),
            data@.len() == halves.len(),
            a.len() == h,
            b.len() == h,
            forall|i: int| 0 <= i < h ==> #[trigger] halves[lo + i] == a[i],
            forall|i: int| 0 <= i < h ==> #[trigger] halves[lo + h + i] == b[i],
            forall|i: int|
                0 <= i < data@.len() && !(lo + h <= i < lo + h + k) ==> #[trigger] data@[i]
                    == halves[i],
            forall|i: int|
                lo + h <= i < lo + h + k ==> #[trigger] data@[i] == (a[i - lo - h] != b[i - lo
                    - h]),
    {
        let left: bool = data[lo + k];
        let right: bool = data[lo + h + k];
        assert(halves[lo + k] == a[k as int]);
        assert(halves[lo + h + k] == b[k as int]);
        data.set(lo + h + k, left != right);
    }
    proof {
        let got = data@.subrange(lo as int, lo + len);
        assert forall|k: int| 0 <= k < len implies got[k] == (a + differ(a, b))[k] by {
            if k < h {
                assert(halves[lo + k] == a[k]);
            }
        }
        assert(got =~= folded(x));
    }
}

/// Transforms bits in place.
pub fn fold_inplace(data: &mut Vec<bool>)
    requires
        is_pow2(old(data)@.len() as int),
    ensures
        final(data)@ == folded(old(data)@),
{
    let n: usize = data.len();
    let ghost before = data@;
    fold_range(data, 0, n);
    proof {
        lemma_folded_len(before);
        assert(before.subrange(0, n as int) =~= before);
        assert(data@.subrange(0, n as int) =~= data@);
    }
}

/// Every binary digit of `j` is also one of `i`.
pub open spec fn within(j: nat, i: nat) -> bool
    decreases j,
{
    if j == 0 {
        true
    } else {
        j % 2 <= i % 2 && within(j / 2, i / 2)
    }
}

/// The parity of the set bits among the first `n` whose place is within `i`.
pub open spec fn parity_within(x: Seq<bool>, i: nat, n: nat) -> bool
    decreases n,
{
    if n == 0 {
        false
    } else {
        parity_within(x, i, (n - 1) as nat) != (within((n - 1) as nat, i) && x[n - 1])
    }
}

proof fn lemma_within_high(h: nat, i: nat, j: nat)
    requires
        is_pow2(h as int),
        i < h,
        j < h,
    ensures
        within(j, h + i) == within(j, i),
        !within(h + j, i),
        within(h + j, h + i) == within(j, i),
    decreases h,
{
    reveal(is_pow2);
    if h == 1 {
        reveal_with_fuel(within, 2);
    } else {
        let g = h / 2;
        lemma_within_high(g, i / 2, j / 2);
        assert((h + j) / 2 == g + j / 2 && (h + i) / 2 == g + i / 2);
        assert((h + j) % 2 == j % 2 && (h + i) % 2 == i % 2);
    }
}

proof fn lemma_parity_halves(x: Seq<bool>, h: nat, i: nat, n: nat)
    requires
        is_pow2(h as int),
        x.len() == 2 * h,
        i < h,
        n <= h,
    ensures
        parity_within(x, i, n) == parity_within(x.take(h as int), i, n),
        parity_within(x, h + i, n) == parity_within(x.take(h as int), i, n),
        parity_within(x, i, h + n) == parity_within(x, i, h),
        parity_within(x, h + i, h + n) == (parity_within(x, h + i, h) != parity_within(
            x.skip(h as int),
            i,
            n,
        )),
    decreases n,
{
    if n > 0 {
        let m = (n - 1) as nat;
        lemma_parity_halves(x, h, i, m);
        lemma_within_high(h, i, m);
        assert(h + n - 1 == h + m);
        assert(x.skip(h as int)[m as int] == x[(h + m) as int]);
        assert(x.take(h as int)[m as int] == x[m as int]);
    }
}

/// A transformed bit is the parity of all bits whose places are within its own.
pub proof fn law_folded_is_parity(x: Seq<bool>, i: nat)
    requires
        is_pow2(x.len() as int),
        i < x.len(),
    ensures
        folded(x)[i as int] == parity_within(x, i, x.len()),
    decreases x.len(),
{
    reveal(is_pow2);
    if x.len() == 1 {
        reveal_with_fuel(parity_within, 2);
        assert(within(0, 0));
    } else {
        let h = x.len() / 2;
        let (l, r) = (x.take(h as int), x.skip(h as int));
        let k = if i < h {
            i
        } else {
            (i - h) as nat
        };
        lemma_folded_len(l);
        lemma_folded_len(r);
        law_folded_is_parity(l, k);
        law_folded_is_parity(r, k);
        lemma_parity_halves(x, h, k, h);
        assert(x.len() == h + h);
        if i >= h {
            assert(h + k == i);
        }
    }
}

} // verus!
