//! Fast Walsh-Hadamard transform with an adaptive window.
//!
//! The transform is its own inverse up to the length of the data. Windows are
//! powers of two from 64 to 2^20 bits; a sharp spectrum doubles the window and
//! a flat one halves it.
use vstd::prelude::*;
use vstd::arithmetic::power2::is_pow2;
use crate::order::{rank, ranked};
use crate::words::bit8;

verus! {

/// Element-wise sum.
pub open spec fn plus(a: Seq<int>, b: Seq<int>) -> Seq<int> {
    Seq::new(a.len(), |k: int| a[k] + b[k])
}

/// Element-wise difference.
pub open spec fn minus(a: Seq<int>, b: Seq<int>) -> Seq<int> {
    Seq::new(a.len(), |k: int| a[k] - b[k])
}

/// The Walsh-Hadamard transform of a sequence whose length is a power of two.
pub open spec fn wht(x: Seq<int>) -> Seq<int>
    decreases x.len(),
{
    if x.len() <= 1 {
        x
    } else {
        let h = x.len() as int / 2;
        let (a, b) = (wht(x.take(h)), wht(x.skip(h)));
        plus(a, b) + minus(a, b)
    }
}

/// The transform of `x`, and of each half in turn, stays within 64 bits.
pub open spec fn wht_fits(x: Seq<int>) -> bool
    decreases x.len(),
{
    &&& forall|k: int| 0 <= k < wht(x).len() ==> i64::MIN <= #[trigger] wht(x)[k] <= i64::MAX
    &&& x.len() > 1 ==> wht_fits(x.take(x.len() as int / 2)) && wht_fits(x.skip(x.len() as int / 2))
}

pub open spec fn ints(data: Seq<i64>) -> Seq<int> {
    data.map_values(|v: i64| v as int)
}

pub proof fn lemma_wht_len(x: Seq<int>)
    requires
        is_pow2(x.len() as int),
    ensures
        wht(x).len() == x.len(),
    decreases x.len(),
{
    reveal(is_pow2);
    if x.len() > 1 {
        let h = x.len() as int / 2;
        lemma_wht_len(x.take(h));
        lemma_wht_len(x.skip(h));
    }
}

proof fn lemma_wht_linear(x: Seq<int>, y: Seq<int>)
    requires
        is_pow2(x.len() as int),
        x.len() == y.len(),
    ensures
        wht(plus(x, y)) == plus(wht(x), wht(y)),
        wht(minus(x, y)) == minus(wht(x), wht(y)),
    decreases x.len(),
{
    reveal(is_pow2);
    lemma_wht_len(x);
    lemma_wht_len(y);
    let (p, m) = (plus(x, y), minus(x, y));
    if x.len() > 1 {
        let h = x.len() as int / 2;
        lemma_wht_linear(x.take(h), y.take(h));
        lemma_wht_linear(x.skip(h), y.skip(h));
        lemma_wht_len(x.take(h));
        lemma_wht_len(x.skip(h));
        lemma_wht_len(y.take(h));
        lemma_wht_len(y.skip(h));
        assert(p.take(h) =~= plus(x.take(h), y.take(h)));
        assert(p.skip(h) =~= plus(x.skip(h), y.skip(h)));
        assert(m.take(h) =~= minus(x.take(h), y.take(h)));
        assert(m.skip(h) =~= minus(x.skip(h), y.skip(h)));
        assert(wht(p) =~= plus(wht(x), wht(y)));
        assert(wht(m) =~= minus(wht(x), wht(y)));
    } else {
        assert(wht(p) =~= plus(wht(x), wht(y)));
        assert(wht(m) =~= minus(wht(x), wht(y)));
    }
}

/// The transform is self-inverse up to a factor: applied twice, it multiplies
/// every element by the length.
pub proof fn law_wht_self_inverse(x: Seq<int>)
    requires
        is_pow2(x.len() as int),
    ensures
        wht(wht(x)) == Seq::new(x.len(), |k: int| x.len() * x[k]),
    decreases x.len(),
{
    reveal(is_pow2);
    let n = x.len() as int;
    let want = Seq::new(x.len(), |k: int| x.len() * x[k]);
    if n == 1 {
        assert(want =~= x);
    } else {
        let h = n / 2;
        let (l, r) = (x.take(h), x.skip(h));
        let (a, b) = (wht(l), wht(r));
        let y = wht(x);
        lemma_wht_len(l);
        lemma_wht_len(r);
        lemma_wht_len(a);
        lemma_wht_len(b);
        assert(y.take(h) =~= plus(a, b));
        assert(y.skip(h) =~= minus(a, b));
        lemma_wht_linear(a, b);
        law_wht_self_inverse(l);
        law_wht_self_inverse(r);
        let z = wht(y);
        assert forall|k: int| 0 <= k < n implies z[k] == want[k] by {
            if k < h {
                assert(wht(a)[k] == h * l[k]);
                assert(n * x[k] == 2 * (h * l[k])) by (nonlinear_arith)
                    requires
                        n == 2 * h,
                        x[k] == l[k],
                ;
            } else {
                assert(wht(b)[k - h] == h * r[k - h]);
                assert(n * x[k] == 2 * (h * r[k - h])) by (nonlinear_arith)
                    requires
                        n == 2 * h,
                        x[k] == r[k - h],
                ;
            }
        }
        assert(z =~= want);
    }
}

/// A bound on the elements bounds the transform, and all that is computed on
/// the way there.
pub proof fn lemma_wht_bound(x: Seq<int>, b: int)
    requires
        is_pow2(x.len() as int),
        forall|k: int| 0 <= k < x.len() ==> -b <= #[trigger] x[k] <= b,
        0 <= b,
    ensures
        forall|k: int|
            0 <= k < x.len() ==> -(b * x.len()) <= #[trigger] wht(x)[k] <= b * x.len(),
        b * x.len() <= i64::MAX ==> wht_fits(x),
    decreases x.len(),
{
    reveal(is_pow2);
    lemma_wht_len(x);
    let n = x.len() as int;
    if n == 1 {
        assert(b * n == b) by (nonlinear_arith)
            requires
                n == 1,
        ;
    } else {
        let h = n / 2;
        lemma_wht_bound(x.take(h), b);
        lemma_wht_bound(x.skip(h), b);
        lemma_wht_len(x.take(h));
        lemma_wht_len(x.skip(h));
        let (p, q) = (wht(x.take(h)), wht(x.skip(h)));
        assert(b * n == b * h + b * h && 0 <= b * h) by (nonlinear_arith)
            requires
                n == 2 * h,
                0 <= b,
                0 <= h,
        ;
        assert forall|k: int| 0 <= k < n implies -(b * n) <= #[trigger] wht(x)[k] <= b * n by {
            let j = if k < h {
                k
            } else {
                k - h
            };
            assert(-(b * h) <= p[j] <= b * h);
            assert(-(b * h) <= q[j] <= b * h);
        }
    }
}

/// A sequence with a non-zero element has a non-zero transform.
pub proof fn lemma_wht_nonzero(x: Seq<int>, at: int)
    requires
        is_pow2(x.len() as int),
        0 <= at < x.len(),
        x[at] != 0,
    ensures
        exists|k: int| 0 <= k < x.len() && #[trigger] wht(x)[k] != 0,
{
    if forall|k: int| 0 <= k < x.len() ==> #[trigger] wht(x)[k] == 0 {
        lemma_wht_len(x);
        lemma_wht_len(wht(x));
        lemma_wht_bound(wht(x), 0);
        law_wht_self_inverse(x);
        assert(0 * x.len() == 0);
        assert(wht(wht(x))[at] == x.len() * x[at]);
        assert(x.len() * x[at] != 0) by (nonlinear_arith)
            requires
                x.len() > 0,
                x[at] != 0,
        ;
        assert(false);
    }
}

/// Transforms `len` elements starting at `lo`.
fn transform_range(data: &mut Vec<i64>, lo: usize, len: usize)
    requires
        is_pow2(len as int),
        lo + len <= old(data).len(),
        wht_fits(ints(old(data)@.subrange(lo as int, lo + len))),
    ensures
        final(data)@.len() == old(data)@.len(),
        ints(final(data)@.subrange(lo as int, lo + len)) == wht(
            ints(old(data)@.subrange(lo as int, lo + len)),
        ),
        forall|k: int|
            0 <= k < final(data)@.len() && !(lo <= k < lo + len) ==> #[trigger] final(data)@[k]
                == old(data)@[k],
    decreases len,
{
    let ghost x = ints(data@.subrange(lo as int, lo + len));
    proof {
        reveal(is_pow2);
    }
    if len == 1 {
        return;
    }
    let h: usize = len / 2;
    let ghost before = data@;
    let ghost (l, r) = (x.take(h as int), x.skip(h as int));
    proof {
        assert(l =~= ints(before.subrange(lo as int, lo + h)));
        assert(r =~= ints(before.subrange(lo + h, lo + h + h)));
        lemma_wht_len(l);
        lemma_wht_len(r);
    }
    transform_range(data, lo, h);
    assert(data@.subrange(lo + h, lo + h + h) =~= before.subrange(lo + h, lo + h + h));
    let ghost left_done = data@;
    transform_range(data, lo + h, h);
    let ghost mid = data@;
    let ghost (a, b) = (wht(l), wht(r));
    proof {
        assert(mid.subrange(lo as int, lo + h) =~= left_done.subrange(lo as int, lo + h));
        assert forall|k: int| 0 <= k < h implies mid[lo + k] == a[k] && mid[lo + h + k] == b[k] by {
            assert(ints(mid.subrange(lo as int, lo + h))[k] == a[k]);
            assert(ints(mid.subrange(lo + h, lo + h + h))[k] == b[k]);
        }
        assert(wht(x) == plus(a, b) + minus(a, b));
    }
    for j in 0..h
        invariant
            lo + len <= data.len(),
            len == 2 * h,
            data@.len() == mid.len(),
            a.len() == h,
            b.len() == h,
            wht(x) == plus(a, b) + minus(a, b),
            forall|k: int| 0 <= k < wht(x).len() ==> i64::MIN <= #[trigger] wht(x)[k] <= i64::MAX,
            forall|k: int| 0 <= k < h ==> mid[lo + k] == a[k],
            forall|k: int| 0 <= k < h ==> mid[lo + h + k] == b[k],
            forall|k: int| 0 <= k < j ==> data@[lo + k] == a[k] + b[k],
            forall|k: int| 0 <= k < j ==> data@[lo + h + k] == a[k] - b[k],
            forall|q: int| lo + j <= q < lo + h ==> #[trigger] data@[q] == mid[q],
            forall|q: int| lo + h + j <= q < lo + len ==> #[trigger] data@[q] == mid[q],
            forall|k: int|
                0 <= k < data@.len() && !(lo <= k < lo + len) ==> #[trigger] data@[k] == mid[k],
    {
        let u: i64 = data[lo + j];
        let v: i64 = data[lo + h + j];
        proof {
            assert(wht(x)[j as int] == a[j as int] + b[j as int]);
            assert(wht(x)[h + j] == a[j as int] - b[j as int]);
        }
        data.set(lo + j, u + v);
        data.set(lo + h + j, u - v);
    }
    assert(ints(data@.subrange(lo as int, lo + len)) =~= wht(x));
}

/// In-place transform.
pub fn fwht_inplace(data: &mut Vec<i64>)
    requires
        is_pow2(old(data)@.len() as int),
        wht_fits(ints(old(data)@)),
    ensures
        ints(final(data)@) == wht(ints(old(data)@)),
        final(data)@.len() == old(data)@.len(),
{
    let n: usize = data.len();
    assert(data@.subrange(0, n as int) =~= data@);
    transform_range(data, 0, n);
    assert(data@.subrange(0, n as int) =~= data@);
}

/// Bit `p` of a byte string, most significant bit of each byte first.
pub open spec fn msb_bit(bytes: Seq<u8>, p: int) -> bool {
    bit8(bytes[p / 8], 7 - p % 8)
}

/// The first `n` bits as signs: one for a set bit, minus one for a clear bit
/// and past the end.
pub open spec fn bipolar(bytes: Seq<u8>, n: nat) -> Seq<int> {
    Seq::new(
        n,
        |p: int|
            if p < 8 * bytes.len() && msb_bit(bytes, p) {
                1int
            } else {
                -1int
            },
    )
}

fn bytes_to_bipolar(bytes: &[u8], n_bits: usize) -> (out: Vec<i64>)
    ensures
        ints(out@) == bipolar(bytes@, n_bits as nat),
        out@.len() == n_bits,
{
    let mut out: Vec<i64> = Vec::new();
    let mut byte: usize = 0;
    let mut bit: u8 = 7;
    for p in 0..n_bits
        invariant
            bit < 8,
            byte <= bytes@.len(),
            byte < bytes@.len() ==> p == 8 * byte + (7 - bit),
            byte == bytes@.len() ==> p >= 8 * bytes@.len(),
            ints(out@) =~= bipolar(bytes@, p as nat),
    {
        let ghost before = out@;
        if byte < bytes.len() {
            out.push(
                if (bytes[byte] >> bit) & 1 == 1 {
                    1
                } else {
                    -1
                },
            );
            if bit == 0 {
                bit = 7;
                byte = byte + 1;
            } else {
                bit = bit - 1;
            }
        } else {
            out.push(-1);
        }
        assert(ints(out@) =~= ints(before).push(out@[p as int] as int));
    }
    out
}

/// The weights of the coefficients.
pub open spec fn magnitudes(spectrum: Seq<int>) -> Seq<u64> {
    spectrum.map_values(
        |v: int|
            if v < 0 {
                (-v) as u64
            } else {
                v as u64
            },
    )
}

/// The coefficients with their places, strongest first, lower places first
/// among equals.
pub open spec fn strongest(spectrum: Seq<int>) -> Seq<(usize, i64)> {
    let order = ranked(magnitudes(spectrum));
    Seq::new(order.len(), |p: int| (order[p] as usize, spectrum[order[p]] as i64))
}

/// The absolute value of a coefficient.
pub fn magnitude(v: i64) -> (m: u64)
    ensures
        m == if v < 0 {
            -v
        } else {
            v as int
        },
{
    if v == i64::MIN {
        0x8000_0000_0000_0000
    } else if v < 0 {
        (-v) as u64
    } else {
        v as u64
    }
}

/// Ranks the coefficients of a spectrum.
pub fn rank_spectrum(spectrum: &Vec<i64>) -> (peaks: Vec<(usize, i64)>)
    ensures
        peaks@ == strongest(ints(spectrum@)),
        peaks@.len() == spectrum@.len(),
{
    let mut weights: Vec<u64> = Vec::new();
    let n: usize = spectrum.len();
    for i in 0..n
        invariant
            n == spectrum@.len(),
            weights@ =~= magnitudes(ints(spectrum@.take(i as int))),
    {
        weights.push(magnitude(spectrum[i]));
        assert(spectrum@.take(i + 1) =~= spectrum@.take(i as int).push(spectrum@[i as int]));
    }
    assert(spectrum@.take(n as int) =~= spectrum@);
    let order = rank(&weights);
    let mut peaks: Vec<(usize, i64)> = Vec::new();
    for p in 0..n
        invariant
            n == spectrum@.len(),
            order@.len() == n,
            forall|q: int| 0 <= q < n ==> #[trigger] order@[q] == ranked(weights@)[q],
            forall|q: int| 0 <= q < n ==> #[trigger] order@[q] < n,
            weights@ == magnitudes(ints(spectrum@)),
            ranked(weights@).len() == n,
            peaks@ =~= strongest(ints(spectrum@)).take(p as int),
    {
        let i: usize = order[p];
        peaks.push((i, spectrum[i]));
    }
    assert(strongest(ints(spectrum@)).take(n as int) =~= strongest(ints(spectrum@)));
    peaks
}

/// The spectrum of the first `window_bits` bits of a block.
pub open spec fn block_spectrum(data: Seq<u8>, window_bits: nat) -> Seq<int> {
    wht(bipolar(data, window_bits))
}

/// The coefficients of a block, strongest first.
pub fn block_peaks(data: &[u8], window_bits: usize) -> (peaks: Vec<(usize, i64)>)
    requires
        is_pow2(window_bits as int),
        window_bits <= i64::MAX,
    ensures
        peaks@ == strongest(block_spectrum(data@, window_bits as nat)),
        peaks@.len() == window_bits,
{
    let mut spectrum = bytes_to_bipolar(data, window_bits);
    proof {
        lemma_wht_bound(ints(spectrum@), 1);
    }
    fwht_inplace(&mut spectrum);
    rank_spectrum(&spectrum)
}

/// The window for the next block.
pub open spec fn next_window(
    current: nat,
    sharp: bool,
    flat: bool,
    min_bits: nat,
    max_bits: nat,
) -> nat {
    if sharp && current * 2 <= max_bits {
        current * 2
    } else if flat && current / 2 >= min_bits {
        current / 2
    } else {
        current
    }
}

/// Decides on the window for the next block: a sharp spectrum doubles it, a
/// flat one halves it, within the given range.
pub fn adapt_window(
    current: usize,
    sharp: bool,
    flat: bool,
    min_bits: usize,
    max_bits: usize,
) -> (next: usize)
    ensures
        next == next_window(current as nat, sharp, flat, min_bits as nat, max_bits as nat),
{
    if sharp && current <= max_bits / 2 {
        current * 2
    } else if flat && current / 2 >= min_bits {
        current / 2
    } else {
        current
    }
}

/// A window that is a power of two within the range stays one.
pub proof fn law_window_stays_in_range(
    current: nat,
    sharp: bool,
    flat: bool,
    min_bits: nat,
    max_bits: nat,
)
    requires
        is_pow2(current as int),
        2 <= min_bits <= current <= max_bits,
    ensures
        is_pow2(next_window(current, sharp, flat, min_bits, max_bits) as int),
        min_bits <= next_window(current, sharp, flat, min_bits, max_bits) <= max_bits,
{
    reveal(is_pow2);
    assert((current * 2) / 2 == current);
}

/// The absolute value of a number.
pub open spec fn distance(v: int) -> int {
    if v < 0 {
        -v
    } else {
        v
    }
}

/// Coefficient `a` at place `i` goes before coefficient `b` at place `j`: it is
/// stronger, or as strong and at a lower place.
pub open spec fn goes_before(a: int, i: int, b: int, j: int) -> bool {
    distance(a) > distance(b) || (distance(a) == distance(b) && i < j)
}

/// The place is listed among the peaks.
pub open spec fn is_listed(peaks: Seq<(usize, i64)>, i: int) -> bool {
    exists|p: int| 0 <= p < peaks.len() && (#[trigger] peaks[p]).0 == i
}

/// The ranking of a spectrum holds every place once, with the coefficient at
/// that place, by falling absolute value; among equals the lower place comes
/// first.
pub proof fn law_ranking_of_spectrum(spectrum: Seq<int>)
    requires
        spectrum.len() <= usize::MAX,
        forall|i: int|
            0 <= i < spectrum.len() ==> i64::MIN <= #[trigger] spectrum[i] <= i64::MAX,
    ensures
        strongest(spectrum).len() == spectrum.len(),
        forall|p: int|
            0 <= p < spectrum.len() ==> (#[trigger] strongest(spectrum)[p]).0 < spectrum.len()
                && strongest(spectrum)[p].1 == spectrum[strongest(spectrum)[p].0 as int],
        forall|p: int, q: int|
            0 <= p < q < spectrum.len() ==> {
                let (a, b) = (#[trigger] strongest(spectrum)[p], #[trigger] strongest(spectrum)[q]);
                distance(a.1 as int) > distance(b.1 as int) || (distance(a.1 as int) == distance(
                    b.1 as int,
                ) && a.0 < b.0)
            },
        forall|i: int| 0 <= i < spectrum.len() ==> #[trigger] is_listed(strongest(spectrum), i),
{
    let weights = magnitudes(spectrum);
    let order = ranked(weights);
    crate::order::lemma_ranked(weights);
    assert forall|p: int| 0 <= p < order.len() implies 0 <= #[trigger] order[p]
        < spectrum.len() by {
        assert(order.contains(order[p]));
    }
    assert forall|p: int, q: int| 0 <= p < q < spectrum.len() implies {
        let (a, b) = (#[trigger] strongest(spectrum)[p], #[trigger] strongest(spectrum)[q]);
        distance(a.1 as int) > distance(b.1 as int) || (distance(a.1 as int) == distance(
            b.1 as int,
        ) && a.0 < b.0)
    } by {
        assert(crate::order::ranks_before(weights, order[p], order[q]));
    }
    assert forall|i: int| 0 <= i < spectrum.len() implies #[trigger] is_listed(
        strongest(spectrum),
        i,
    ) by {
        assert(order.contains(i));
        let p = choose|p: int| 0 <= p < order.len() && order[p] == i;
        assert(strongest(spectrum)[p].0 == i);
    }
}

/// Whether two numbers have an odd number of binary ones in common.
pub open spec fn meet_oddly(i: nat, j: nat) -> bool
    decreases i,
{
    if i == 0 {
        false
    } else {
        (i % 2 == 1 && j % 2 == 1) != meet_oddly(i / 2, j / 2)
    }
}

/// The first `n` elements added up, each with the sign that its place has in
/// the Walsh function `i`.
pub open spec fn walsh_sum(x: Seq<int>, i: nat, n: nat) -> int
    decreases n,
{
    if n == 0 {
        0
    } else {
        walsh_sum(x, i, (n - 1) as nat) + if meet_oddly(i, (n - 1) as nat) {
            -x[n - 1]
        } else {
            x[n - 1]
        }
    }
}

proof fn lemma_meet_zero(i: nat)
    ensures
        !meet_oddly(i, 0),
    decreases i,
{
    if i > 0 {
        lemma_meet_zero(i / 2);
    }
}

proof fn lemma_meet_high(h: nat, i: nat, j: nat)
    requires
        is_pow2(h as int),
        i < h,
        j < h,
    ensures
        meet_oddly(i, h + j) == meet_oddly(i, j),
        meet_oddly(h + i, j) == meet_oddly(i, j),
        meet_oddly(h + i, h + j) == !meet_oddly(i, j),
    decreases h,
{
    reveal(is_pow2);
    if h == 1 {
        lemma_meet_zero(1);
        assert(!meet_oddly(0, 0));
        assert(meet_oddly(1, 1));
    } else {
        let g = h / 2;
        lemma_meet_high(g, i / 2, j / 2);
        assert((h + j) / 2 == g + j / 2 && (h + i) / 2 == g + i / 2);
        assert((h + j) % 2 == j % 2 && (h + i) % 2 == i % 2);
        if i == 0 {
            assert(!meet_oddly(0, j / 2));
        }
    }
}

proof fn lemma_walsh_halves(x: Seq<int>, h: nat, i: nat, n: nat)
    requires
        is_pow2(h as int),
        x.len() == 2 * h,
        i < h,
        n <= h,
    ensures
        walsh_sum(x, i, n) == walsh_sum(x.take(h as int), i, n),
        walsh_sum(x, h + i, n) == walsh_sum(x.take(h as int), i, n),
        walsh_sum(x, i, h + n) == walsh_sum(x, i, h) + walsh_sum(x.skip(h as int), i, n),
        walsh_sum(x, h + i, h + n) == walsh_sum(x, h + i, h) - walsh_sum(x.skip(h as int), i, n),
    decreases n,
{
    if n > 0 {
        let m = (n - 1) as nat;
        lemma_walsh_halves(x, h, i, m);
        lemma_meet_high(h, i, m);
        assert(h + n - 1 == h + m);
        assert(x.skip(h as int)[m as int] == x[(h + m) as int]);
    }
}

/// Coefficient `i` is the sum of all elements, each with the sign that its
/// place has in the Walsh function `i`.
pub proof fn law_wht_is_walsh_sum(x: Seq<int>, i: nat)
    requires
        is_pow2(x.len() as int),
        i < x.len(),
    ensures
        wht(x)[i as int] == walsh_sum(x, i, x.len()),
    decreases x.len(),
{
    reveal(is_pow2);
    if x.len() == 1 {
        reveal_with_fuel(walsh_sum, 2);
    } else {
        let h = x.len() / 2;
        let (l, r) = (x.take(h as int), x.skip(h as int));
        let k = if i < h {
            i
        } else {
            (i - h) as nat
        };
        lemma_wht_len(l);
        lemma_wht_len(r);
        law_wht_is_walsh_sum(l, k);
        law_wht_is_walsh_sum(r, k);
        lemma_walsh_halves(x, h, k, h);
        assert(x.len() == h + h);
        if i >= h {
            assert(h + k == i);
        }
    }
}

/// A sharp spectrum widens the window where there is room, a flat one narrows it
/// again, and both steps undo each other. Without either, the window stays.
pub proof fn law_window_steps_are_undone(current: nat, min_bits: nat, max_bits: nat)
    requires
        0 < min_bits <= current,
        2 * current <= max_bits,
    ensures
        ({
            let wide = next_window(current, true, false, min_bits, max_bits);
            &&& wide == 2 * current
            &&& next_window(wide, false, true, min_bits, max_bits) == current
            &&& next_window(wide, false, false, min_bits, max_bits) == wide
            &&& next_window(current, true, true, min_bits, max_bits) == wide
        }),
{
}

/// The signs of a block spell its bytes, the highest bit of each byte first, and
/// are negative past the end.
pub proof fn law_signs_spell_bytes(bytes: Seq<u8>, n: nat, i: int)
    requires
        0 <= i,
        8 * i + 8 <= n,
    ensures
        ({
            let s = bipolar(bytes, n);
            let at = 8 * i;
            let sum = 128 * s[at] + 64 * s[at + 1] + 32 * s[at + 2] + 16 * s[at + 3] + 8 * s[at + 4]
                + 4 * s[at + 5] + 2 * s[at + 6] + s[at + 7];
            &&& i < bytes.len() ==> sum == 2 * bytes[i] - 255
            &&& i >= bytes.len() ==> sum == -255
        }),
{
    if i < bytes.len() {
        crate::words::lemma_byte_bits(bytes[i]);
    }
}

/// The digits that two numbers have in common, counted.
pub proof fn lemma_common_digits(i: u64, j: u64)
    ensures
        meet_oddly(i as nat, j as nat) == (crate::words::ones((i & j) as nat) % 2 == 1),
    decreases i,
{
    crate::words::lemma_xor(j, 0);
    assert((i & j) / 2 == (i / 2) & (j / 2) && (i & j) % 2 == (if i % 2 == 1 && j % 2 == 1 {
        1u64
    } else {
        0u64
    }) && 0 & j == 0) by (bit_vector);
    if i > 0 {
        lemma_common_digits(i / 2, j / 2);
    }
}

/// A coefficient of a block is the sum of the signs of its bits, each with the
/// sign that its place has in the Walsh function.
pub proof fn law_block_spectrum(data: Seq<u8>, window_bits: nat, i: nat)
    requires
        is_pow2(window_bits as int),
        i < window_bits,
    ensures
        block_spectrum(data, window_bits).len() == window_bits,
        block_spectrum(data, window_bits)[i as int] == walsh_sum(
            bipolar(data, window_bits),
            i,
            window_bits,
        ),
{
    lemma_wht_len(bipolar(data, window_bits));
    law_wht_is_walsh_sum(bipolar(data, window_bits), i);
}

} // verus!
