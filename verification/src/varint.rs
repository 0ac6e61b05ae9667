//! Variable-length numbers and ascending positions written as their gaps.
use vstd::prelude::*;
use vstd::arithmetic::power2::pow2;
use crate::text::outcome;

verus! {

/// The little-endian base-128 digits of `v`, all but the last marked.
pub open spec fn uleb(v: nat) -> Seq<u8>
    decreases v,
{
    if v < 128 {
        seq![v as u8]
    } else {
        seq![(v % 128 + 128) as u8] + uleb(v / 128)
    }
}

/// How many marked bytes stand at `at`, one after the other.
pub open spec fn marked_run(bytes: Seq<u8>, at: int) -> nat
    decreases bytes.len() - at,
{
    if 0 <= at < bytes.len() && bytes[at] >= 128 {
        1 + marked_run(bytes, at + 1)
    } else {
        0
    }
}

/// The number that base-128 digits stand for.
pub open spec fn digits_value(s: Seq<u8>) -> nat
    decreases s.len(),
{
    if s.len() == 0 {
        0
    } else {
        (s[0] % 128) as nat + 128 * digits_value(s.drop_first())
    }
}

/// The number that starts at `at`, and the place behind it.
pub open spec fn uleb_at(bytes: Seq<u8>, at: int) -> Result<(u64, int), Seq<char>> {
    let k = marked_run(bytes, at) as int;
    let digits = bytes.subrange(at, at + k + 1);
    if k >= 10 && at + 10 < bytes.len() {
        Err("spectral exception varint overflow"@)
    } else if at + k >= bytes.len() {
        Err("truncated spectral exception varint"@)
    } else if digits_value(digits) > u64::MAX || (k > 0 && digits.last() == 0) {
        Err("spectral exception varint is not canonical"@)
    } else {
        Ok((digits_value(digits) as u64, at + k + 1))
    }
}

/// Appends a number.
pub fn encode_uleb128(value: u64, out: &mut Vec<u8>)
    ensures
        final(out)@ == old(out)@ + uleb(value as nat),
{
    let mut rest: u64 = value;
    while rest >= 128
        invariant
            old(out)@ + uleb(value as nat) == out@ + uleb(rest as nat),
        decreases rest,
    {
        let ghost before = out@;
        out.push((rest % 128 + 128) as u8);
        assert(before + uleb(rest as nat) =~= out@ + uleb((rest / 128) as nat));
        rest = rest / 128;
    }
    let ghost before = out@;
    out.push(rest as u8);
    assert(out@ =~= before + uleb(rest as nat));
}

proof fn lemma_digits_push(s: Seq<u8>, b: u8)
    ensures
        digits_value(s.push(b)) == digits_value(s) + (b % 128) * pow2(7 * s.len()),
    decreases s.len(),
{
    let t = s.push(b);
    vstd::arithmetic::power2::lemma2_to64();
    if s.len() == 0 {
        assert(t.drop_first() =~= Seq::empty());
        assert(digits_value(Seq::<u8>::empty()) == 0);
        assert((b % 128) * 1 == b % 128);
    } else {
        let rest = s.drop_first();
        assert(t.drop_first() =~= rest.push(b));
        lemma_digits_push(rest, b);
        vstd::arithmetic::power2::lemma_pow2_adds(7, 7 * rest.len());
        assert(7 + 7 * rest.len() == 7 * s.len());
        let d = (b % 128) as int;
        let p = pow2(7 * rest.len()) as int;
        assert(128 * (d * p) == d * (128 * p)) by (nonlinear_arith);
    }
}

proof fn lemma_marked_run(bytes: Seq<u8>, at: int, k: nat)
    requires
        0 <= at,
        at + k <= bytes.len(),
        forall|i: int| at <= i < at + k ==> #[trigger] bytes[i] >= 128,
        at + k < bytes.len() ==> bytes[at + k] < 128,
    ensures
        marked_run(bytes, at) == k,
    decreases k,
{
    if k > 0 {
        assert(bytes[at] >= 128);
        lemma_marked_run(bytes, at + 1, (k - 1) as nat);
    }
}

proof fn lemma_marked_run_at_least(bytes: Seq<u8>, at: int, k: nat)
    requires
        0 <= at,
        at + k <= bytes.len(),
        forall|i: int| at <= i < at + k ==> #[trigger] bytes[i] >= 128,
    ensures
        marked_run(bytes, at) >= k,
    decreases k,
{
    if k > 0 {
        assert(bytes[at] >= 128);
        lemma_marked_run_at_least(bytes, at + 1, (k - 1) as nat);
    }
}

/// Reads the number at `at`, and finds the place behind it.
pub fn decode_uleb128(bytes: &[u8], at: usize) -> (r: Result<(u64, usize), String>)
    requires
        at <= bytes@.len(),
    ensures
        match r {
            Ok((v, next)) => uleb_at(bytes@, at as int) == Ok::<(u64, int), Seq<char>>(
                (v, next as int),
            ) && at < next <= bytes@.len(),
            Err(e) => uleb_at(bytes@, at as int) == Err::<(u64, int), Seq<char>>(e@),
        },
{
    let mut value: u128 = 0;
    let mut weight: u128 = 1;
    let mut k: usize = 0;
    assert(bytes@.subrange(at as int, at as int) =~= Seq::<u8>::empty());
    proof {
        vstd::arithmetic::power2::lemma2_to64();
        vstd::arithmetic::power2::lemma2_to64_rest();
        vstd::arithmetic::power2::lemma_pow2_adds(64, 6);
    }
    while k < 10 && at + k < bytes.len() && bytes[at + k] >= 128
        invariant
            k <= 10,
            at + k <= bytes.len(),
            forall|i: int| at <= i < at + k ==> #[trigger] bytes@[i] >= 128,
            value == digits_value(bytes@.subrange(at as int, at + k)),
            weight == pow2(7 * k as nat),
            value < weight,
            pow2(70) == 0x40_0000_0000_0000_0000,
            weight <= 0x40_0000_0000_0000_0000,
        decreases 10 - k,
    {
        let b: u8 = bytes[at + k];
        proof {
            let s = bytes@.subrange(at as int, at + k);
            assert(bytes@.subrange(at as int, at + k + 1) =~= s.push(b));
            lemma_digits_push(s, b);
            vstd::arithmetic::power2::lemma_pow2_adds(7, 7 * k as nat);
            vstd::arithmetic::power2::lemma2_to64();
            if 7 * k + 7 < 70 {
                vstd::arithmetic::power2::lemma_pow2_strictly_increases((7 * k + 7) as nat, 70);
            }
            let d = (b % 128) as int;
            assert(d * weight <= 127 * weight && 0 <= d * weight) by (nonlinear_arith)
                requires
                    0 <= d <= 127,
                    0 <= weight,
            ;
        }
        value = value + (b % 128) as u128 * weight;
        weight = weight * 128;
        k = k + 1;
    }
    if k == 10 && at + 10 < bytes.len() {
        proof {
            lemma_marked_run_at_least(bytes@, at as int, 10);
        }
        return Err("spectral exception varint overflow".to_string());
    }
    if at + k >= bytes.len() {
        proof {
            lemma_marked_run(bytes@, at as int, k as nat);
        }
        return Err("truncated spectral exception varint".to_string());
    }
    let last: u8 = bytes[at + k];
    proof {
        lemma_marked_run(bytes@, at as int, k as nat);
        let s = bytes@.subrange(at as int, at + k);
        assert(bytes@.subrange(at as int, at + k + 1) =~= s.push(last));
        lemma_digits_push(s, last);
        assert(last * weight <= 127 * weight && 0 <= last * weight) by (nonlinear_arith)
            requires
                last <= 127,
                0 <= weight,
        ;
    }
    let total: u128 = value + last as u128 * weight;
    if total > u64::MAX as u128 || (k > 0 && last == 0) {
        return Err("spectral exception varint is not canonical".to_string());
    }
    Ok((total as u64, at + k + 1))
}

pub proof fn lemma_uleb_shape(v: nat)
    ensures
        uleb(v).len() >= 1,
        uleb(v).last() < 128,
        forall|i: int| 0 <= i < uleb(v).len() - 1 ==> #[trigger] uleb(v)[i] >= 128,
        digits_value(uleb(v)) == v,
        uleb(v).len() > 1 ==> uleb(v).last() != 0,
        v >= 1 ==> uleb(v).last() != 0,
        v >= 1 ==> uleb(v).len() <= v,
    decreases v,
{
    let s = uleb(v);
    if v < 128 {
        assert(s.drop_first() =~= Seq::empty());
        assert(digits_value(Seq::<u8>::empty()) == 0);
    } else {
        lemma_uleb_shape(v / 128);
        assert(s.drop_first() =~= uleb(v / 128));
        assert forall|i: int| 0 <= i < s.len() - 1 implies #[trigger] s[i] >= 128 by {
            if i > 0 {
                assert(s[i] == uleb(v / 128)[i - 1]);
            }
        }
    }
}

proof fn lemma_uleb_len(v: nat, k: nat)
    requires
        v < pow2(7 * k),
        k >= 1,
    ensures
        uleb(v).len() <= k,
    decreases k,
{
    vstd::arithmetic::power2::lemma2_to64();
    if v >= 128 {
        if k == 1 {
            assert(pow2(7) == 128);
        } else {
            vstd::arithmetic::power2::lemma_pow2_adds(7, (7 * (k - 1)) as nat);
            assert(7 + 7 * (k - 1) == 7 * k);
            assert(v / 128 < pow2((7 * (k - 1)) as nat)) by (nonlinear_arith)
                requires
                    v < 128 * pow2((7 * (k - 1)) as nat),
            ;
            lemma_uleb_len(v / 128, (k - 1) as nat);
        }
    }
}

/// A number is read back from wherever it was written.
pub proof fn law_uleb_roundtrip(v: u64, before: Seq<u8>, after: Seq<u8>)
    ensures
        uleb_at(before + uleb(v as nat) + after, before.len() as int) == Ok::<
            (u64, int),
            Seq<char>,
        >((v, (before.len() + uleb(v as nat).len()) as int)),
{
    let digits = uleb(v as nat);
    let bytes = before + digits + after;
    let at = before.len() as int;
    lemma_uleb_shape(v as nat);
    vstd::arithmetic::power2::lemma2_to64_rest();
    vstd::arithmetic::power2::lemma_pow2_strictly_increases(64, 70);
    lemma_uleb_len(v as nat, 10);
    let k = (digits.len() - 1) as nat;
    assert forall|i: int| at <= i < at + k implies #[trigger] bytes[i] >= 128 by {
        assert(bytes[i] == digits[i - at]);
    }
    assert(bytes[at + k] == digits.last());
    lemma_marked_run(bytes, at, k);
    assert(bytes.subrange(at, at + k + 1) =~= digits);
}

/// The gap in front of position `i`, counted from one before the start.
pub open spec fn gap(positions: Seq<usize>, i: int) -> int {
    if i == 0 {
        positions[0] + 1
    } else {
        positions[i] - positions[i - 1]
    }
}

/// The gaps of positions, one after the other.
pub open spec fn gap_bytes(positions: Seq<usize>) -> Seq<u8>
    decreases positions.len(),
{
    if positions.len() == 0 {
        Seq::empty()
    } else {
        gap_bytes(positions.drop_last()) + uleb(gap(positions, positions.len() - 1) as nat)
    }
}

/// The positions that gaps from `at` on lead to, after those already known.
pub open spec fn positions_from(bytes: Seq<u8>, at: int, known: Seq<usize>) -> Result<
    Seq<usize>,
    Seq<char>,
>
    decreases bytes.len() - at,
{
    if at >= bytes.len() {
        Ok(known)
    } else {
        match uleb_at(bytes, at) {
            Err(e) => Err(e),
            Ok((delta, next)) => {
                let position = delta + if known.len() == 0 {
                    -1
                } else {
                    known.last() as int
                };
                if delta == 0 {
                    Err("position delta must be positive"@)
                } else if position > usize::MAX {
                    Err("position delta overflow"@)
                } else {
                    positions_from(bytes, next, known.push(position as usize))
                }
            },
        }
    }
}

/// Every position is above the one before it.
pub open spec fn ascending(positions: Seq<usize>) -> bool {
    forall|i: int, j: int|
        0 <= i < j < positions.len() ==> #[trigger] positions[i] < #[trigger] positions[j]
}

/// Writes ascending positions as gaps.
pub fn encode_position_deltas(positions: &[usize]) -> (out: Vec<u8>)
    requires
        forall|i: int|
            0 < i < positions@.len() ==> positions@[i - 1] <= #[trigger] positions@[i],
        positions@.len() > 0 ==> positions@[0] < usize::MAX,
    ensures
        out@ == gap_bytes(positions@),
{
    let mut out: Vec<u8> = Vec::new();
    let n: usize = positions.len();
    for i in 0..n
        invariant
            n == positions@.len(),
            forall|i: int|
                0 < i < positions@.len() ==> positions@[i - 1] <= #[trigger] positions@[i],
            positions@.len() > 0 ==> positions@[0] < usize::MAX,
            out@ == gap_bytes(positions@.take(i as int)),
    {
        let ghost front = positions@.take(i + 1);
        assert(front.drop_last() =~= positions@.take(i as int));
        assert(gap(front, i as int) == gap(positions@, i as int));
        assert(i > 0 ==> positions@[i - 1] <= positions@[i as int]);
        let delta: usize = if i == 0 {
            positions[0] + 1
        } else {
            positions[i] - positions[i - 1]
        };
        encode_uleb128(delta as u64, &mut out);
    }
    assert(positions@.take(n as int) =~= positions@);
    out
}

/// Reads positions back from their gaps.
///
/// A position that does not fit in the machine's index type is refused.
pub fn decode_position_deltas(bytes: &[u8]) -> (r: Result<Vec<usize>, String>)
    ensures
        outcome(r) == positions_from(bytes@, 0, Seq::empty()),
        r matches Ok(positions) ==> ascending(positions@),
{
    let mut at: usize = 0;
    let mut positions: Vec<usize> = Vec::new();
    while at < bytes.len()
        invariant
            at <= bytes@.len(),
            ascending(positions@),
            positions_from(bytes@, 0, Seq::empty()) == positions_from(
                bytes@,
                at as int,
                positions@,
            ),
        decreases bytes@.len() - at,
    {
        let (delta, next) = match decode_uleb128(bytes, at) {
            Ok(p) => p,
            Err(e) => return Err(e),
        };
        if delta == 0 {
            return Err("position delta must be positive".to_string());
        }
        let n: usize = positions.len();
        let position: u128 = if n == 0 {
            delta as u128 - 1
        } else {
            positions[n - 1] as u128 + delta as u128
        };
        if position > usize::MAX as u128 {
            return Err("position delta overflow".to_string());
        }
        let ghost before = positions@;
        positions.push(position as usize);
        proof {
            assert forall|i: int, j: int|
                0 <= i < j < positions@.len() implies #[trigger] positions@[i]
                < #[trigger] positions@[j] by {
                if j == n {
                    assert(before[i] <= before[n - 1]);
                } else {
                    assert(before[i] < before[j]);
                }
            }
        }
        at = next;
    }
    Ok(positions)
}

proof fn lemma_positions_roundtrip(positions: Seq<usize>, k: int)
    requires
        ascending(positions),
        positions.len() > 0 ==> positions.last() < usize::MAX,
        0 <= k <= positions.len(),
    ensures
        positions_from(
            gap_bytes(positions),
            gap_bytes(positions.take(k)).len() as int,
            positions.take(k),
        ) == Ok::<Seq<usize>, Seq<char>>(positions),
        gap_bytes(positions.take(k)).len() <= gap_bytes(positions).len(),
    decreases positions.len() - k,
{
    let all = gap_bytes(positions);
    let at = gap_bytes(positions.take(k)).len() as int;
    if k == positions.len() {
        assert(positions.take(k) =~= positions);
    } else {
        let next = positions.take(k + 1);
        assert(next.drop_last() =~= positions.take(k));
        let delta = gap(next, k);
        assert(delta == gap(positions, k));
        if k > 0 {
            assert(positions[k - 1] < positions[k]);
        }
        assert(positions[k] <= positions.last());
        let tail = lemma_gap_split(positions, k + 1);
        let before = gap_bytes(positions.take(k));
        assert(all =~= before + uleb(delta as nat) + tail);
        law_uleb_roundtrip(delta as u64, before, tail);
        lemma_uleb_shape(delta as nat);
        lemma_positions_roundtrip(positions, k + 1);
        assert(positions.take(k).push(positions[k]) =~= positions.take(k + 1));
        if k > 0 {
            assert(positions.take(k).last() == positions[k - 1]);
        }
    }
}

/// The gaps of all positions begin with the gaps of the first ones.
pub proof fn lemma_gap_split(positions: Seq<usize>, k: int) -> (tail: Seq<u8>)
    requires
        0 <= k <= positions.len(),
    ensures
        gap_bytes(positions) == gap_bytes(positions.take(k)) + tail,
    decreases positions.len() - k,
{
    if k == positions.len() {
        assert(positions.take(k) =~= positions);
        let tail = Seq::<u8>::empty();
        assert(gap_bytes(positions) =~= gap_bytes(positions.take(k)) + tail);
        tail
    } else {
        let t = lemma_gap_split(positions, k + 1);
        let next = positions.take(k + 1);
        assert(next.drop_last() =~= positions.take(k));
        let tail = uleb(gap(next, k) as nat) + t;
        assert(gap_bytes(positions) =~= gap_bytes(positions.take(k)) + tail);
        tail
    }
}

/// Ascending positions are read back from their gaps.
pub proof fn law_positions_roundtrip(positions: Seq<usize>)
    requires
        ascending(positions),
        positions.len() > 0 ==> positions.last() < usize::MAX,
    ensures
        positions_from(gap_bytes(positions), 0, Seq::empty()) == Ok::<Seq<usize>, Seq<char>>(
            positions,
        ),
{
    lemma_positions_roundtrip(positions, 0);
    assert(positions.take(0) =~= Seq::empty());
}

/// A number takes as few bytes as there are groups of seven binary digits: up to
/// `k` bytes exactly where it is below `2^(7k)`.
pub proof fn law_uleb_is_short(v: nat, k: nat)
    requires
        k >= 1,
    ensures
        uleb(v).len() <= k <==> v < pow2(7 * k),
    decreases k,
{
    vstd::arithmetic::power2::lemma2_to64();
    lemma_uleb_shape(v);
    if k == 1 {
        if v >= 128 {
            lemma_uleb_shape(v / 128);
        }
    } else {
        let m = (k - 1) as nat;
        vstd::arithmetic::power2::lemma_pow2_adds(7, 7 * m);
        assert(7 + 7 * m == 7 * k);
        vstd::arithmetic::power2::lemma_pow2_pos(7 * m);
        if v >= 128 {
            law_uleb_is_short(v / 128, m);
            assert(v / 128 < pow2(7 * m) <==> v < 128 * pow2(7 * m));
        } else {
            assert(128 * pow2(7 * m) >= 128);
        }
    }
}

proof fn lemma_run_is_marked(bytes: Seq<u8>, at: int)
    requires
        0 <= at <= bytes.len(),
    ensures
        at + marked_run(bytes, at) <= bytes.len(),
        forall|i: int| at <= i < at + marked_run(bytes, at) ==> #[trigger] bytes[i] >= 128,
        at + marked_run(bytes, at) < bytes.len() ==> bytes[at + marked_run(bytes, at)] < 128,
    decreases bytes.len() - at,
{
    if at < bytes.len() && bytes[at] >= 128 {
        lemma_run_is_marked(bytes, at + 1);
        assert forall|i: int| at <= i < at + marked_run(bytes, at) implies #[trigger] bytes[i]
            >= 128 by {
            if i > at {
                assert(at + 1 <= i < at + 1 + marked_run(bytes, at + 1));
            }
        }
    }
}

proof fn lemma_digits_are_uleb(d: Seq<u8>)
    requires
        d.len() >= 1,
        d.last() < 128,
        forall|i: int| 0 <= i < d.len() - 1 ==> #[trigger] d[i] >= 128,
        d.len() > 1 ==> d.last() != 0,
    ensures
        uleb(digits_value(d)) == d,
        d.last() != 0 ==> digits_value(d) >= 1,
    decreases d.len(),
{
    let rest = d.drop_first();
    if d.len() == 1 {
        assert(rest =~= Seq::empty());
        assert(digits_value(rest) == 0);
        assert(uleb(digits_value(d)) =~= d);
    } else {
        assert forall|i: int| 0 <= i < rest.len() - 1 implies #[trigger] rest[i] >= 128 by {
            assert(d[i + 1] >= 128);
        }
        lemma_digits_are_uleb(rest);
        assert(d[0] >= 128);
        let v = digits_value(d);
        assert(v % 128 + 128 == d[0] && v / 128 == digits_value(rest) && v >= 128);
        assert(uleb(v) =~= d);
    }
}

/// A number is read only from the bytes that it is written as.
pub proof fn law_read_uleb_is_written(bytes: Seq<u8>, at: int)
    requires
        0 <= at <= bytes.len(),
    ensures
        uleb_at(bytes, at) matches Ok((v, next)) ==> at < next <= bytes.len() && bytes.subrange(
            at,
            next,
        ) == uleb(v as nat),
{
    if uleb_at(bytes, at) is Ok {
        let k = marked_run(bytes, at) as int;
        let digits = bytes.subrange(at, at + k + 1);
        lemma_run_is_marked(bytes, at);
        assert(digits.last() == bytes[at + k]);
        assert forall|i: int| 0 <= i < digits.len() - 1 implies #[trigger] digits[i] >= 128 by {
            assert(bytes[at + i] >= 128);
        }
        lemma_digits_are_uleb(digits);
    }
}

proof fn lemma_positions_read(bytes: Seq<u8>, at: int, known: Seq<usize>)
    requires
        0 <= at <= bytes.len(),
        bytes.take(at) == gap_bytes(known),
        ascending(known),
    ensures
        positions_from(bytes, at, known) matches Ok(p) ==> gap_bytes(p) == bytes && ascending(p),
    decreases bytes.len() - at,
{
    if at == bytes.len() {
        assert(bytes.take(at) =~= bytes);
    } else if uleb_at(bytes, at) is Ok {
        let (delta, next) = uleb_at(bytes, at)->Ok_0;
        law_read_uleb_is_written(bytes, at);
        let position = delta + if known.len() == 0 {
            -1
        } else {
            known.last() as int
        };
        if delta > 0 && position <= usize::MAX {
            let more = known.push(position as usize);
            assert(more.drop_last() =~= known);
            assert(gap(more, more.len() - 1) == delta);
            assert(bytes.take(next) =~= bytes.take(at) + bytes.subrange(at, next));
            assert forall|i: int, j: int| 0 <= i < j < more.len() implies #[trigger] more[i]
                < #[trigger] more[j] by {
                if j == known.len() && i < known.len() - 1 {
                    assert(known[i] < known[known.len() - 1]);
                }
            }
            lemma_positions_read(bytes, next, more);
        }
    }
}

/// Positions that were read ascend, and writing them gives the same bytes.
pub proof fn law_read_positions_are_written(bytes: Seq<u8>)
    ensures
        positions_from(bytes, 0, Seq::empty()) matches Ok(p) ==> gap_bytes(p) == bytes
            && ascending(p),
{
    assert(bytes.take(0) =~= gap_bytes(Seq::empty()));
    lemma_positions_read(bytes, 0, Seq::empty());
}

} // verus!
