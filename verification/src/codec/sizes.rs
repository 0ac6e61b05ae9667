//! Which block sizes are tried on an input.
use vstd::prelude::*;
use vstd::arithmetic::power2::is_pow2;
use crate::kernel::compile::{strength, strength_of, sum_strengths, total_strength};
use crate::kernel::topology::{analyze_topology, signature, Topology, TopologySignature};
use crate::order::{distinct, sort_distinct};

verus! {

/// The smallest power of two that is at least `n`.
pub open spec fn next_pow2(n: nat) -> nat
    decreases n,
{
    if n <= 1 {
        1
    } else {
        2 * next_pow2((n + 1) / 2)
    }
}

/// The largest power of two that is at most `n`.
pub open spec fn floor_pow2(n: nat) -> nat
    decreases n,
{
    if n <= 1 {
        1
    } else {
        2 * floor_pow2(n / 2)
    }
}

/// `next_pow2` is what it says.
pub proof fn lemma_next_pow2(n: nat)
    ensures
        is_pow2(next_pow2(n) as int),
        n <= next_pow2(n),
        n > 1 ==> next_pow2(n) < 2 * n,
    decreases n,
{
    reveal(is_pow2);
    if n > 1 {
        lemma_next_pow2((n + 1) / 2);
        if n == 2 {
            assert(next_pow2(1) == 1);
        }
    }
}

/// A power of two that is at least `n` is at least `next_pow2(n)`.
pub proof fn lemma_next_pow2_least(n: nat, p: nat)
    requires
        is_pow2(p as int),
        n <= p,
    ensures
        next_pow2(n) <= p,
    decreases n,
{
    reveal(is_pow2);
    if n > 1 {
        lemma_next_pow2_least((n + 1) / 2, p / 2);
    }
}

/// `floor_pow2` is what it says.
pub proof fn lemma_floor_pow2(n: nat)
    requires
        n > 0,
    ensures
        is_pow2(floor_pow2(n) as int),
        floor_pow2(n) <= n < 2 * floor_pow2(n),
    decreases n,
{
    reveal(is_pow2);
    if n > 1 {
        lemma_floor_pow2(n / 2);
    }
}

/// `p` and its doubles, as far as `top`.
pub open spec fn doublings(p: nat, top: nat) -> Seq<usize>
    decreases
        if p <= top {
            top + 1 - p
            } else {
                0
            },
{
    if p == 0 || p > top {
        Seq::empty()
    } else {
        seq![p as usize] + doublings(2 * p, top)
    }
}

/// The powers of two from the first that is at least `min_value` up to
/// `max_value`; the first is always there.
pub open spec fn powers_between(min_value: nat, max_value: nat) -> Seq<usize> {
    let first = next_pow2(
        if min_value > 1 {
            min_value
        } else {
            1
        },
    );
    doublings(
        first,
        if max_value > first {
            max_value
        } else {
            first
        },
    )
}

/// Every entry is a power of two in the range, and every power of two in the
/// range is an entry.
pub proof fn law_doublings(p: nat, top: nat, q: usize)
    requires
        is_pow2(p as int),
        top <= usize::MAX,
    ensures
        doublings(p, top).contains(q) <==> is_pow2(q as int) && p <= q <= top,
    decreases
        if p <= top {
            top + 1 - p
            } else {
                0
            },
{
    reveal(is_pow2);
    if p <= top {
        let rest = doublings(2 * p, top);
        let all = doublings(p, top);
        law_doublings(2 * p, top, q);
        if rest.contains(q) {
            let i = choose|i: int| 0 <= i < rest.len() && rest[i] == q;
            assert(all[i + 1] == q);
        }
        if q == p {
            assert(all[0] == q);
        }
        if all.contains(q) {
            let i = choose|i: int| 0 <= i < all.len() && all[i] == q;
            if i > 0 {
                assert(rest[i - 1] == q);
            }
        }
        if is_pow2(q as int) && p < q {
            lemma_next_of_pow2(p, q as nat);
        }
    }
}

/// The next power of two after `p` is its double.
proof fn lemma_next_of_pow2(p: nat, q: nat)
    requires
        is_pow2(p as int),
        is_pow2(q as int),
        p < q,
    ensures
        2 * p <= q,
    decreases p,
{
    reveal(is_pow2);
    if p > 1 {
        lemma_next_of_pow2(p / 2, q / 2);
    }
}

fn next_power(n: usize) -> (p: usize)
    requires
        next_pow2(n as nat) <= usize::MAX,
    ensures
        p == next_pow2(n as nat),
{
    let mut p: usize = 1;
    let ghost want = next_pow2(n as nat);
    proof {
        lemma_next_pow2(n as nat);
        reveal(is_pow2);
        lemma_at_least_one(want);
    }
    while p < n
        invariant
            is_pow2(p as int),
            p <= want,
            is_pow2(want as int),
            n <= want <= usize::MAX,
        decreases usize::MAX - p,
    {
        proof {
            lemma_next_of_pow2(p as nat, want);
            reveal(is_pow2);
        }
        p = p * 2;
    }
    proof {
        lemma_next_pow2_least(n as nat, p as nat);
    }
    p
}

proof fn lemma_at_least_one(p: nat)
    requires
        is_pow2(p as int),
    ensures
        p >= 1,
{
    reveal(is_pow2);
}

/// Lists the powers of two between two values.
pub fn powers_of_two_between(min_value: usize, max_value: usize) -> (out: Vec<usize>)
    requires
        next_pow2(min_value as nat) <= usize::MAX,
    ensures
        out@ == powers_between(min_value as nat, max_value as nat),
{
    let mut current: usize = next_power(
        if min_value > 1 {
            min_value
        } else {
            1
        },
    );
    let ceiling: usize = if max_value > current {
        max_value
    } else {
        current
    };
    let ghost first = current as nat;
    proof {
        lemma_next_pow2(if min_value > 1 { min_value as nat } else { 1 });
        lemma_at_least_one(first);
    }
    let mut out: Vec<usize> = Vec::new();
    assert(doublings(first, ceiling as nat) =~= out@ + doublings(current as nat, ceiling as nat));
    while current <= ceiling
        invariant_except_break
            doublings(first, ceiling as nat) == out@ + doublings(current as nat, ceiling as nat),
            current > 0,
        ensures
            doublings(first, ceiling as nat) == out@,
        decreases
                if current <= ceiling {
                    ceiling + 1 - current
                } else {
                    0
                },
    {
        let ghost before = out@;
        let ghost rest = doublings(2 * current as nat, ceiling as nat);
        out.push(current);
        assert(before + (seq![current] + rest) =~= out@ + rest);
        if current > usize::MAX / 2 {
            assert(out@ + rest =~= out@);
            break;
        }
        current = current * 2;
        if current > ceiling {
            assert(out@ + rest =~= out@);
        }
    }
    out
}

/// The length of the front of the input that is probed.
pub open spec fn probe_len(len: nat) -> Option<nat> {
    if len < 8 {
        None
    } else {
        Some(
            floor_pow2(
                if len < 8192 {
                    len
                } else {
                    8192
                },
            ),
        )
    }
}

/// How much of an input of the given length is probed.
pub fn largest_power_of_two_probe(input_len: usize) -> (r: Option<usize>)
    ensures
        match r {
            Some(p) => probe_len(input_len as nat) == Some(p as nat),
            None => probe_len(input_len as nat) is None,
        },
{
    let capped: usize = if input_len < 8192 {
        input_len
    } else {
        8192
    };
    if capped < 8 {
        return None;
    }
    let mut p: usize = 1;
    let ghost want = floor_pow2(capped as nat);
    proof {
        lemma_floor_pow2(capped as nat);
        reveal(is_pow2);
    }
    while p <= capped / 2
        invariant
            is_pow2(p as int),
            is_pow2(want as int),
            want <= capped < 2 * want,
            p <= capped <= 8192,
        decreases capped - p,
    {
        proof {
            reveal(is_pow2);
        }
        p = p * 2;
    }
    proof {
        if p < want {
            lemma_next_of_pow2(p as nat, want);
        } else if p > want {
            lemma_next_of_pow2(want, p as nat);
        }
    }
    Some(p)
}

/// The strongest peak is at least `times` the mean.
pub open spec fn stands_out(t: Topology, times: nat) -> bool {
    t.walsh_peaks.len() > 0 && (total_strength(t.walsh_peaks) == 0 || strength(t.walsh_peaks[0])
        * t.walsh_peaks.len() >= times * total_strength(t.walsh_peaks))
}

fn peak_stands_out(t: &TopologySignature, times: u64) -> (r: bool)
    requires
        times <= 12,
        t@.walsh_peaks.len() <= 4,
    ensures
        r == stands_out(t@, times as nat),
{
    if t.walsh_peaks.len() == 0 {
        return false;
    }
    let total: u128 = sum_strengths(&t.walsh_peaks);
    if total == 0 {
        return true;
    }
    let top: u64 = strength_of(&t.walsh_peaks[0]);
    let n: usize = t.walsh_peaks.len();
    assert(0 <= top * n <= 0x8000_0000 * 4) by (nonlinear_arith)
        requires
            0 <= top <= 0x8000_0000,
            0 <= n <= 4,
    ;
    assert(0 <= times * total <= 12 * (0x8000_0000 * 4)) by (nonlinear_arith)
        requires
            0 <= times <= 12,
            0 <= total <= 0x8000_0000 * 4,
    ;
    top as u128 * n as u128 >= times as u128 * total
}

/// The signature of the probed front, where there is one.
pub open spec fn probe_signature(input: Seq<u8>) -> Option<Topology> {
    match probe_len(input.len()) {
        None => None,
        Some(p) => Some(signature(input.take(p as int))),
    }
}

/// The peak of the probed front is at least `times` the mean.
pub open spec fn is_prominent(input: Seq<u8>, times: nat) -> bool {
    probe_signature(input) matches Some(t) && stands_out(t, times)
}

/// The power of two from 64 to 8192 that is nearest above the length.
pub open spec fn window_ceiling(len: nat) -> nat {
    let p = next_pow2(len);
    if p < 64 {
        64
    } else if p > 8192 {
        8192
    } else {
        p
    }
}

/// The smallest and the largest window to try.
pub open spec fn window_range(input: Seq<u8>) -> (nat, nat) {
    let upper = window_ceiling(input.len());
    if is_prominent(input, 12) {
        (
            if upper < 512 {
                upper
            } else {
                512
            },
            if upper > 512 {
                upper
            } else {
                512
            },
        )
    } else if is_prominent(input, 6) {
        (
            if upper < 256 {
                upper
            } else {
                256
            },
            if upper > 4096 {
                4096
            } else if upper > 256 {
                upper
            } else {
                256
            },
        )
    } else {
        (
            64,
            if upper > 1024 {
                1024
            } else {
                upper
            },
        )
    }
}

fn probe_topology(input: &[u8]) -> (r: Option<TopologySignature>)
    ensures
        match r {
            Some(t) => probe_signature(input@) == Some(t@) && t@.walsh_peaks.len() == 4,
            None => probe_signature(input@) is None,
        },
{
    match largest_power_of_two_probe(input.len()) {
        None => None,
        Some(p) => {
            proof {
                let capped = if input@.len() < 8192 { input@.len() } else { 8192 };
                lemma_floor_pow2(capped);
                lemma_pow2_at_least_8(p as nat);
                reveal(is_pow2);
            }
            let probe = vstd::slice::slice_subrange(input, 0, p);
            assert(probe@ =~= input@.take(p as int));
            proof {
                lemma_eight_times(p as nat);
            }
            match analyze_topology(probe) {
                Ok(t) => Some(t),
                Err(_) => None,
            }
        },
    }
}

proof fn lemma_pow2_at_least_8(p: nat)
    requires
        is_pow2(p as int),
        p > 4,
    ensures
        p % 8 == 0,
{
    reveal(is_pow2);
    assert(is_pow2(p as int / 2));
    assert(is_pow2(p as int / 2 / 2));
    assert(is_pow2(p as int / 2 / 2 / 2));
}

proof fn lemma_eight_times(p: nat)
    requires
        is_pow2(p as int),
    ensures
        is_pow2(8 * p as int),
{
    reveal(is_pow2);
    assert(is_pow2(2 * p as int));
    assert(is_pow2(4 * p as int));
}

/// Chooses the windows to try.
pub fn adaptive_window_bounds(input: &[u8]) -> (r: (usize, usize))
    ensures
        (r.0 as nat, r.1 as nat) == window_range(input@),
{
    let capped: usize = if input.len() < 8192 {
        input.len()
    } else {
        8192
    };
    proof {
        lemma_next_pow2(capped as nat);
        assert(is_pow2(8192)) by {
            reveal_with_fuel(is_pow2, 14);
        }
        lemma_next_pow2_least(capped as nat, 8192);
        lemma_next_pow2(input@.len());
    }
    let p: usize = next_power(capped);
    let upper: usize = if p < 64 {
        64
    } else {
        p
    };
    let t = match probe_topology(input) {
        Some(t) => t,
        None => return (
            64,
            if upper > 1024 {
                1024
            } else {
                upper
            },
        ),
    };
    if peak_stands_out(&t, 12) {
        (
            if upper < 512 {
                upper
            } else {
                512
            },
            if upper > 512 {
                upper
            } else {
                512
            },
        )
    } else if peak_stands_out(&t, 6) {
        (
            if upper < 256 {
                upper
            } else {
                256
            },
            if upper > 4096 {
                4096
            } else if upper > 256 {
                upper
            } else {
                256
            },
        )
    } else {
        (
            64,
            if upper > 1024 {
                1024
            } else {
                upper
            },
        )
    }
}

/// A multiple of a value, or the largest value where that is too large.
pub open spec fn saturated(value: usize, times: nat) -> usize {
    if value * times > usize::MAX {
        usize::MAX
    } else {
        (value * times) as usize
    }
}

/// The sizes around a given one, or a fixed list and the windows that suit the
/// input.
pub open spec fn baseline(input: Seq<u8>, hint: Option<usize>) -> Seq<usize> {
    match hint {
        Some(value) if value > 0 => seq![
            value / 4,
            value / 2,
            value,
            saturated(value, 2),
            saturated(value, 4),
        ],
        _ => {
            let (low, high) = window_range(input);
            powers_between(low, high) + seq![
                64usize,
                128usize,
                256usize,
                512usize,
                1024usize,
                2048usize,
                4096usize,
                8192usize,
            ]
        },
    }
}

/// The sizes other than zero, none above `upper`.
pub open spec fn capped(sizes: Seq<usize>, upper: usize) -> Seq<u64>
    decreases sizes.len(),
{
    if sizes.len() == 0 {
        Seq::empty()
    } else {
        let front = capped(sizes.drop_last(), upper);
        let last = sizes.last();
        if last == 0 {
            front
        } else if last < upper {
            front.push(last as u64)
        } else {
            front.push(upper as u64)
        }
    }
}

/// The largest block size that makes sense for an input.
pub open spec fn largest_size(len: nat) -> nat {
    if len > 64 {
        len
    } else {
        64
    }
}

/// The block sizes to try, ascending.
pub open spec fn candidate_sizes(input: Seq<u8>, hint: Option<usize>) -> Seq<usize> {
    let upper = largest_size(input.len()) as usize;
    distinct(capped(baseline(input, hint), upper).push(upper as u64)).map_values(
        |s: u64| s as usize,
    )
}

proof fn lemma_capped(sizes: Seq<usize>, upper: usize)
    requires
        upper > 0,
    ensures
        forall|i: int|
            0 <= i < capped(sizes, upper).len() ==> 0 < #[trigger] capped(sizes, upper)[i] <= upper,
    decreases sizes.len(),
{
    if sizes.len() > 0 {
        let front = capped(sizes.drop_last(), upper);
        let all = capped(sizes, upper);
        lemma_capped(sizes.drop_last(), upper);
        assert forall|i: int| 0 <= i < all.len() implies 0 < #[trigger] all[i] <= upper by {
            if i < front.len() {
                assert(all[i] == front[i]);
            }
        }
    }
}

/// There is at least one size to try, and every size is between one byte and
/// the largest that makes sense.
pub proof fn law_candidate_sizes(input: Seq<u8>, hint: Option<usize>)
    requires
        input.len() <= usize::MAX,
    ensures
        candidate_sizes(input, hint).len() > 0,
        forall|i: int|
            0 <= i < candidate_sizes(input, hint).len() ==> 0 < #[trigger] candidate_sizes(
                input,
                hint,
            )[i] <= largest_size(input.len()),
        candidate_sizes(input, hint).contains(largest_size(input.len()) as usize),
{
    let upper = largest_size(input.len()) as usize;
    let list = capped(baseline(input, hint), upper).push(upper as u64);
    let sizes = candidate_sizes(input, hint);
    crate::order::lemma_distinct(list);
    lemma_capped(baseline(input, hint), upper);
    let d = distinct(list);
    assert(list.last() == upper as u64);
    assert(list.contains(upper as u64));
    assert(d.contains(upper as u64));
    let i = choose|i: int| 0 <= i < d.len() && d[i] == upper as u64;
    assert(sizes[i] == upper);
    assert forall|i: int| 0 <= i < sizes.len() implies 0 < #[trigger] sizes[i] <= upper by {
        assert(d.contains(d[i]));
        assert(list.contains(d[i]));
        let j = choose|j: int| 0 <= j < list.len() && list[j] == d[i];
        assert(j < list.len() - 1 ==> list[j] == capped(baseline(input, hint), upper)[j]);
    }
}

/// A size other than zero that is not too large is kept.
proof fn lemma_capped_keeps(sizes: Seq<usize>, upper: usize, i: int)
    requires
        0 <= i < sizes.len(),
        0 < sizes[i] <= upper,
    ensures
        capped(sizes, upper).contains(sizes[i] as u64),
    decreases sizes.len(),
{
    let front = capped(sizes.drop_last(), upper);
    let all = capped(sizes, upper);
    if i == sizes.len() - 1 {
        assert(all.last() == sizes[i] as u64);
    } else {
        lemma_capped_keeps(sizes.drop_last(), upper, i);
        let j = choose|j: int| 0 <= j < front.len() && front[j] == sizes[i] as u64;
        assert(all[j] == front[j]);
    }
}

/// Every size around which the choice is made is tried, unless it is zero or
/// larger than makes sense. So without a hint all powers of two from 64 to 8192
/// that make sense are tried.
pub proof fn law_baseline_is_tried(input: Seq<u8>, hint: Option<usize>, size: usize)
    requires
        input.len() <= usize::MAX,
        0 < size <= largest_size(input.len()),
    ensures
        baseline(input, hint).contains(size) ==> candidate_sizes(input, hint).contains(size),
        (hint is None || hint == Some(0usize)) && is_pow2(size as int) && 64 <= size <= 8192
            ==> candidate_sizes(input, hint).contains(size),
{
    let upper = largest_size(input.len()) as usize;
    let base = baseline(input, hint);
    if (hint is None || hint == Some(0usize)) && is_pow2(size as int) && 64 <= size <= 8192 {
        let (low, high) = window_range(input);
        let front = powers_between(low, high);
        assert(size == 64 || size == 128 || size == 256 || size == 512 || size == 1024 || size
            == 2048 || size == 4096 || size == 8192) by {
            lemma_sizes_between(size as nat);
        }
        let n = front.len() as int;
        assert(base[n] == 64 && base[n + 1] == 128 && base[n + 2] == 256 && base[n + 3] == 512
            && base[n + 4] == 1024 && base[n + 5] == 2048 && base[n + 6] == 4096 && base[n + 7]
            == 8192);
        assert(base.contains(size));
    }
    if base.contains(size) {
        let i = choose|i: int| 0 <= i < base.len() && base[i] == size;
        lemma_capped_keeps(base, upper, i);
        let list = capped(base, upper).push(upper as u64);
        let j = choose|j: int|
            0 <= j < capped(base, upper).len() && capped(base, upper)[j] == size as u64;
        assert(list[j] == size as u64);
        crate::order::lemma_distinct(list);
        let d = distinct(list);
        assert(list.contains(size as u64));
        assert(d.contains(size as u64));
        let k = choose|k: int| 0 <= k < d.len() && d[k] == size as u64;
        assert(candidate_sizes(input, hint)[k] == size);
    }
}

proof fn lemma_sizes_between(size: nat)
    requires
        is_pow2(size as int),
        64 <= size <= 8192,
    ensures
        size == 64 || size == 128 || size == 256 || size == 512 || size == 1024 || size == 2048
            || size == 4096 || size == 8192,
{
    assert(is_pow2(64)) by {
        reveal_with_fuel(is_pow2, 8);
    }
    lemma_next_of_pow2_from(64, size);
    lemma_next_of_pow2_from(128, size);
    lemma_next_of_pow2_from(256, size);
    lemma_next_of_pow2_from(512, size);
    lemma_next_of_pow2_from(1024, size);
    lemma_next_of_pow2_from(2048, size);
    lemma_next_of_pow2_from(4096, size);
}

proof fn lemma_next_of_pow2_from(p: nat, q: nat)
    requires
        is_pow2(p as int),
        is_pow2(q as int),
    ensures
        is_pow2(2 * p as int),
        p < q ==> 2 * p <= q,
{
    if p < q {
        lemma_next_of_pow2(p, q);
    }
    reveal(is_pow2);
}

/// Both bounds of the windows are powers of two between 64 and 8192.
pub proof fn law_window_bounds(input: Seq<u8>)
    ensures
        is_pow2(window_range(input).0 as int),
        is_pow2(window_range(input).1 as int),
        64 <= window_range(input).0 <= window_range(input).1 <= 8192,
{
    lemma_next_pow2(input.len());
    assert(is_pow2(64) && is_pow2(256) && is_pow2(512) && is_pow2(1024) && is_pow2(4096) && is_pow2(
        8192,
    )) by {
        reveal_with_fuel(is_pow2, 14);
    }
}

/// A size below the limit is there only if it was given and is not zero.
proof fn lemma_capped_given(sizes: Seq<usize>, upper: usize, x: usize)
    requires
        x < upper,
        capped(sizes, upper).contains(x as u64),
    ensures
        0 < x,
        sizes.contains(x),
    decreases sizes.len(),
{
    let all = capped(sizes, upper);
    let k = choose|k: int| 0 <= k < all.len() && all[k] == x as u64;
    let front = capped(sizes.drop_last(), upper);
    if k < front.len() {
        assert(front[k] == x as u64);
        lemma_capped_given(sizes.drop_last(), upper, x);
        let i = choose|i: int| 0 <= i < sizes.drop_last().len() && sizes.drop_last()[i] == x;
        assert(sizes[i] == x);
    } else {
        assert(sizes[sizes.len() - 1] == x);
    }
}

/// Below the largest size that makes sense, the sizes to try are those of the
/// baseline, except zero.
proof fn lemma_tried(input: Seq<u8>, hint: Option<usize>, size: usize)
    requires
        input.len() <= usize::MAX,
        size < largest_size(input.len()),
    ensures
        candidate_sizes(input, hint).contains(size) <==> size > 0 && baseline(
            input,
            hint,
        ).contains(size),
{
    let upper = largest_size(input.len()) as usize;
    let base = baseline(input, hint);
    let list = capped(base, upper).push(upper as u64);
    let d = distinct(list);
    let sizes = candidate_sizes(input, hint);
    if size > 0 {
        law_baseline_is_tried(input, hint, size);
    }
    if sizes.contains(size) {
        crate::order::lemma_distinct(list);
        lemma_capped(base, upper);
        let k = choose|k: int| 0 <= k < sizes.len() && sizes[k] == size;
        assert(d.contains(d[k]));
        let j = choose|j: int| 0 <= j < list.len() && list[j] == d[k];
        if j < list.len() - 1 {
            assert(capped(base, upper)[j] == d[k]);
        }
        assert(d[k] <= upper);
        assert(d[k] == size as u64);
        assert(capped(base, upper)[j] == size as u64);
        lemma_capped_given(base, upper, size);
    }
}

/// With a hint, a quarter, a half, the whole, the double and the fourfold of it
/// are tried, as far as they are below the length of the input or 64. Without
/// one, all powers of two from 64 to 8192 below the length are. In both cases
/// the length, or 64 where that is more, is tried as well; no other size is.
pub proof fn law_sizes_tried(input: Seq<u8>, hint: Option<usize>, size: usize)
    requires
        input.len() <= usize::MAX,
    ensures
        ({
            let top = if input.len() > 64 {
                input.len()
            } else {
                64
            };
            candidate_sizes(input, hint).contains(size) <==> size == top || (0 < size < top
                && match hint {
                Some(v) if v > 0 => size == v / 4 || size == v / 2 || size == v || size == 2 * v
                    || size == 4 * v,
                _ => is_pow2(size as int) && 64 <= size <= 8192,
            })
        }),
{
    law_candidate_sizes(input, hint);
    let top = largest_size(input.len());
    let sizes = candidate_sizes(input, hint);
    let base = baseline(input, hint);
    if size > top && sizes.contains(size) {
        let i = choose|i: int| 0 <= i < sizes.len() && sizes[i] == size;
        assert(sizes[i] <= top);
    }
    if size < top {
        lemma_tried(input, hint, size);
        match hint {
            Some(v) if v > 0 => {
                assert(base[0] == v / 4 && base[1] == v / 2 && base[2] == v && base[3]
                    == saturated(v, 2) && base[4] == saturated(v, 4));
            },
            _ => {
                if size > 0 {
                    law_baseline_is_tried(input, hint, size);
                }
                if base.contains(size) {
                    lemma_base_pow2(input, hint, size);
                }
            },
        }
    }
}

proof fn lemma_base_pow2(input: Seq<u8>, hint: Option<usize>, size: usize)
    requires
        hint is None || hint == Some(0usize),
        baseline(input, hint).contains(size),
    ensures
        is_pow2(size as int),
        64 <= size <= 8192,
{
    let base = baseline(input, hint);
    let (low, high) = window_range(input);
    let front = powers_between(low, high);
    let k = choose|k: int| 0 <= k < base.len() && base[k] == size;
    law_window_bounds(input);
    assert(is_pow2(64) && is_pow2(128) && is_pow2(256) && is_pow2(512) && is_pow2(1024)
        && is_pow2(2048) && is_pow2(4096) && is_pow2(8192)) by {
        reveal_with_fuel(is_pow2, 14);
    }
    if k < front.len() {
        assert(front[k] == size);
        assert(front.contains(size));
        lemma_next_pow2(low);
        lemma_next_pow2_least(low, low);
        law_doublings(low, high, size);
    }
}

/// The sizes to try are listed in ascending order, each once.
pub proof fn law_sizes_ascend(input: Seq<u8>, hint: Option<usize>, i: int, j: int)
    requires
        input.len() <= usize::MAX,
        0 <= i < j < candidate_sizes(input, hint).len(),
    ensures
        candidate_sizes(input, hint)[i] < candidate_sizes(input, hint)[j],
{
    let upper = largest_size(input.len()) as usize;
    let base = baseline(input, hint);
    let list = capped(base, upper).push(upper as u64);
    let d = distinct(list);
    crate::order::lemma_distinct(list);
    lemma_capped(base, upper);
    assert forall|k: int| 0 <= k < d.len() implies #[trigger] d[k] <= upper by {
        assert(d.contains(d[k]));
        let j = choose|j: int| 0 <= j < list.len() && list[j] == d[k];
        assert(j < list.len() - 1 ==> list[j] == capped(base, upper)[j]);
    }
    assert(d[i] < d[j]);
}

fn saturate(value: usize, times: usize) -> (r: usize)
    requires
        times > 0,
    ensures
        r == saturated(value, times as nat),
{
    match value.checked_mul(times) {
        Some(r) => r,
        None => usize::MAX,
    }
}

fn baseline_sizes(input: &[u8], hint: Option<usize>) -> (out: Vec<usize>)
    ensures
        out@ == baseline(input@, hint),
{
    match hint {
        Some(value) if value > 0 => {
            let mut out: Vec<usize> = Vec::new();
            out.push(value / 4);
            out.push(value / 2);
            out.push(value);
            out.push(saturate(value, 2));
            out.push(saturate(value, 4));
            assert(out@ =~= baseline(input@, hint));
            out
        },
        _ => {
            let (low, high) = adaptive_window_bounds(input);
            proof {
                lemma_next_pow2(low as nat);
            }
            let mut out = powers_of_two_between(low, high);
            out.push(64);
            out.push(128);
            out.push(256);
            out.push(512);
            out.push(1024);
            out.push(2048);
            out.push(4096);
            out.push(8192);
            assert(out@ =~= baseline(input@, hint));
            out
        },
    }
}

/// Lists the block sizes to try.
pub fn candidate_block_sizes(input: &[u8], block_size_hint: Option<usize>) -> (out: Vec<usize>)
    ensures
        out@ == candidate_sizes(input@, block_size_hint),
{
    let upper: usize = if input.len() > 64 {
        input.len()
    } else {
        64
    };
    let sizes = baseline_sizes(input, block_size_hint);
    let n: usize = sizes.len();
    let mut list: Vec<u64> = Vec::new();
    assert(sizes@.take(0) =~= Seq::empty());
    for i in 0..n
        invariant
            n == sizes@.len(),
            list@ == capped(sizes@.take(i as int), upper),
    {
        assert(sizes@.take(i + 1).drop_last() =~= sizes@.take(i as int));
        let s: usize = sizes[i];
        if s > 0 {
            list.push(
                if s < upper {
                    s as u64
                } else {
                    upper as u64
                },
            );
        }
    }
    assert(sizes@.take(n as int) =~= sizes@);
    list.push(upper as u64);
    let unique = sort_distinct(list.as_slice());
    let m: usize = unique.len();
    let mut out: Vec<usize> = Vec::new();
    for i in 0..m
        invariant
            m == unique@.len(),
            out@ == unique@.take(i as int).map_values(|s: u64| s as usize),
    {
        out.push(unique[i] as usize);
        assert(out@ =~= unique@.take(i + 1).map_values(|s: u64| s as usize));
    }
    assert(unique@.take(m as int) =~= unique@);
    out
}

/// Windows are tried up to the length of the input, but no further than 8192.
/// Where no coefficient stands out, they start at 64 and end at 1024; where one
/// is six times the mean, they start at 256 and end at 4096; where one is twelve
/// times the mean, they start at 512.
pub proof fn law_window_range(input: Seq<u8>)
    requires
        input.len() >= 512,
    ensures
        ({
            let (low, high) = window_range(input);
            let strong = is_prominent(input, 12);
            let clear = is_prominent(input, 6) && !strong;
            &&& strong ==> low == 512 && (input.len() >= 8192 ==> high == 8192)
            &&& clear ==> low == 256 && (input.len() >= 4096 ==> high == 4096)
            &&& !strong && !clear ==> low == 64 && (input.len() >= 1024 ==> high == 1024)
            &&& high < input.len() ==> high == 8192 || high == 4096 || high == 1024
            &&& high >= input.len() ==> high < 2 * input.len()
        }),
{
    lemma_next_pow2(input.len());
    assert(is_pow2(512) && is_pow2(1024) && is_pow2(4096) && is_pow2(8192)) by {
        reveal_with_fuel(is_pow2, 14);
    }
    if input.len() > 512 {
        lemma_next_of_pow2_from(512, next_pow2(input.len()));
    } else {
        lemma_next_pow2_least(input.len(), 512);
    }
}

/// The probe is the longest front of the input, of a power of two of bytes from
/// eight to 8192.
pub proof fn law_probe_is_longest(len: nat, p: nat)
    requires
        is_pow2(p as int),
        8 <= p <= 8192,
    ensures
        probe_len(len) is Some <==> len >= 8,
        probe_len(len) matches Some(n) ==> {
            &&& is_pow2(n as int)
            &&& n <= len
            &&& 8 <= n <= 8192
            &&& p <= len ==> p <= n
        },
{
    let capped = if len < 8192 {
        len
    } else {
        8192
    };
    if capped >= 8 {
        lemma_floor_pow2(capped);
        let n = floor_pow2(capped);
        assert(is_pow2(8)) by {
            reveal_with_fuel(is_pow2, 5);
        }
        if n < p {
            lemma_next_of_pow2(n, p);
        }
        if n < 8 {
            lemma_next_of_pow2(n, 8);
        }
    }
}

/// A peak stands out where, four times, it reaches so many times the strength of
/// all four together; one that stands out twelvefold stands out sixfold.
pub proof fn law_peak_stands_out(t: Topology, times: nat)
    requires
        t.walsh_peaks.len() == 4,
        total_strength(t.walsh_peaks) > 0,
    ensures
        stands_out(t, times) <==> 4 * strength(t.walsh_peaks[0]) >= times * total_strength(
            t.walsh_peaks,
        ),
        stands_out(t, 12) ==> stands_out(t, 6),
{
}

} // verus!
