//! Blocks over a small alphabet, with up to three rare symbols kept apart.
use vstd::prelude::*;
use crate::bitstream::{
    bit_width_for_cardinality, ceil_div, index_bits, index_width, lemma_bit_len, lemma_index_bits,
    pack_indices, packed_bits, unpack_indices, unpacked_indices,
};
use crate::codec::alphabet::{
    alphabet_of, indices_fit, lemma_alphabet, place, place_table, places, sorted_symbols,
};
use crate::codec::wire::{block_size, wire_size};
use crate::model::{
    produced, BlockAnalysis, BlockEncoding, BlockView, SparseAlphabetBlock, SparseView,
};
use crate::order::{rank, ranked};
use crate::text::outcome;
use crate::varint::{
    ascending, decode_position_deltas, encode_position_deltas, gap_bytes, positions_from,
};

verus! {

/// How often a byte occurs.
pub open spec fn count_of(block: Seq<u8>, b: u8) -> nat
    decreases block.len(),
{
    if block.len() == 0 {
        0
    } else {
        count_of(block.drop_last(), b) + if block.last() == b {
            1nat
        } else {
            0
        }
    }
}

/// How rare every symbol of the alphabet is.
pub open spec fn rarity(block: Seq<u8>) -> Seq<u64> {
    let alphabet = alphabet_of(block);
    Seq::new(alphabet.len(), |i: int| (block.len() - count_of(block, alphabet[i])) as u64)
}

/// The byte is among the `k` rarest of the block, lower bytes first among
/// equals.
pub open spec fn is_rare(block: Seq<u8>, k: nat, b: u8) -> bool {
    exists|p: int|
        0 <= p < k && p < ranked(rarity(block)).len() && alphabet_of(block)[#[trigger] ranked(
            rarity(block),
        )[p]] == b
}

/// The elements that satisfy a predicate, in order.
pub open spec fn kept(s: Seq<u8>, f: spec_fn(u8) -> bool) -> Seq<u8>
    decreases s.len(),
{
    if s.len() == 0 {
        Seq::empty()
    } else if f(s.last()) {
        kept(s.drop_last(), f).push(s.last())
    } else {
        kept(s.drop_last(), f)
    }
}

/// The positions of the elements that satisfy a predicate.
pub open spec fn kept_positions(s: Seq<u8>, f: spec_fn(u8) -> bool) -> Seq<usize>
    decreases s.len(),
{
    if s.len() == 0 {
        Seq::empty()
    } else if f(s.last()) {
        kept_positions(s.drop_last(), f).push((s.len() - 1) as usize)
    } else {
        kept_positions(s.drop_last(), f)
    }
}

/// The rare bytes of a block.
pub open spec fn rare(block: Seq<u8>, k: nat) -> spec_fn(u8) -> bool {
    |b: u8| is_rare(block, k, b)
}

/// The other bytes of a block.
pub open spec fn common(block: Seq<u8>, k: nat) -> spec_fn(u8) -> bool {
    |b: u8| !is_rare(block, k, b)
}

/// The block with its `k` rarest symbols kept apart, where that leaves an
/// alphabet that needs less than a full byte per symbol.
pub open spec fn sparse_candidate(block: Seq<u8>, k: nat) -> Option<SparseView> {
    let alphabet = alphabet_of(block);
    let exceptions = kept(alphabet, rare(block, k));
    let dense = kept(alphabet, common(block, k));
    let dense_width = index_width(dense.len());
    if exceptions.len() == 0 || exceptions.len() >= alphabet.len() || dense_width >= 8 {
        None
    } else {
        Some(
            SparseView {
                original_len: block.len() as u32,
                dense_alphabet: dense,
                dense_bit_width: dense_width as u8,
                dense_breadcrumbs: packed_bits(
                    index_bits(places(dense, kept(block, common(block, k))), dense_width),
                ),
                exception_alphabet: exceptions,
                exception_indices: packed_bits(
                    index_bits(
                        places(exceptions, kept(block, rare(block, k))),
                        index_width(exceptions.len()),
                    ),
                ),
                exception_positions: gap_bytes(kept_positions(block, rare(block, k))),
            },
        )
    }
}

/// The shortest candidate with up to `n` rare symbols, fewer symbols first
/// among equals.
pub open spec fn sparse_block(block: Seq<u8>, n: nat) -> Option<SparseView>
    decreases n,
{
    if n == 0 || alphabet_of(block).len() <= 1 {
        None
    } else {
        let best = sparse_block(block, (n - 1) as nat);
        match (sparse_candidate(block, n), best) {
            (None, _) => best,
            (Some(c), None) => Some(c),
            (Some(c), Some(b)) => if block_size(BlockView::SparseAlphabet(c)) < block_size(
                BlockView::SparseAlphabet(b),
            ) {
                Some(c)
            } else {
                Some(b)
            },
        }
    }
}

proof fn lemma_kept(s: Seq<u8>, f: spec_fn(u8) -> bool)
    ensures
        kept(s, f).len() <= s.len(),
        kept_positions(s, f).len() == kept(s, f).len(),
        forall|b: u8| #[trigger] kept(s, f).contains(b) <==> s.contains(b) && f(b),
        sorted_symbols(s) ==> sorted_symbols(kept(s, f)),
        s.len() <= usize::MAX ==> ascending(kept_positions(s, f)),
        s.len() <= usize::MAX ==> forall|i: int|
            0 <= i < kept_positions(s, f).len() ==> #[trigger] kept_positions(s, f)[i] < s.len(),
    decreases s.len(),
{
    if s.len() > 0 {
        let front = s.drop_last();
        lemma_kept(front, f);
        let all = kept(s, f);
        let old_kept = kept(front, f);
        assert(s[s.len() - 1] == s.last());
        assert forall|b: u8| #[trigger] all.contains(b) <==> s.contains(b) && f(b) by {
            if old_kept.contains(b) {
                let k = choose|k: int| 0 <= k < old_kept.len() && old_kept[k] == b;
                assert(all[k] == b);
                let m = choose|m: int| 0 <= m < front.len() && front[m] == b;
                assert(s[m] == b);
            }
            if s.contains(b) && f(b) {
                let m = choose|m: int| 0 <= m < s.len() && s[m] == b;
                if m < front.len() {
                    assert(front[m] == b);
                    assert(front.contains(b));
                    assert(old_kept.contains(b));
                } else {
                    assert(all[old_kept.len() as int] == b);
                }
            }
            if all.contains(b) {
                let k = choose|k: int| 0 <= k < all.len() && all[k] == b;
                if k < old_kept.len() {
                    assert(old_kept[k] == b);
                    assert(old_kept.contains(b));
                } else {
                    assert(b == s.last());
                }
            }
        }
        if sorted_symbols(s) {
            assert forall|i: int, j: int| 0 <= i < j < front.len() implies #[trigger] front[i]
                < #[trigger] front[j] by {
                assert(s[i] < s[j]);
            }
            assert(sorted_symbols(front));
            assert forall|i: int, j: int| 0 <= i < j < all.len() implies #[trigger] all[i]
                < #[trigger] all[j] by {
                if j < old_kept.len() {
                    assert(old_kept[i] < old_kept[j]);
                } else {
                    assert(old_kept.contains(old_kept[i]));
                    let m = choose|m: int| 0 <= m < front.len() && front[m] == old_kept[i];
                    assert(s[m] < s[s.len() - 1]);
                }
            }
        }
        if s.len() <= usize::MAX {
            let p = kept_positions(s, f);
            let q = kept_positions(front, f);
            assert forall|i: int, j: int| 0 <= i < j < p.len() implies #[trigger] p[i]
                < #[trigger] p[j] by {
                if j < q.len() {
                    assert(q[i] < q[j]);
                } else {
                    assert(q[i] < front.len());
                }
            }
        }
    }
}

fn count_bytes(block: &[u8]) -> (counts: Vec<usize>)
    ensures
        counts@.len() == 256,
        forall|b: u8| #[trigger] counts@[b as int] == count_of(block@, b),
        forall|b: u8| #[trigger] counts@[b as int] <= block@.len(),
{
    let mut counts: Vec<usize> = vec![0; 256];
    let n: usize = block.len();
    for i in 0..n
        invariant
            n == block@.len(),
            counts@.len() == 256,
            forall|b: u8| #[trigger] counts@[b as int] == count_of(block@.take(i as int), b),
            forall|b: u8| #[trigger] counts@[b as int] <= i,
    {
        let b: u8 = block[i];
        let ghost before = counts@;
        let ghost part = block@.take(i + 1);
        assert(part.drop_last() =~= block@.take(i as int));
        let seen: usize = counts[b as usize];
        assert(before[b as int] <= i);
        counts.set(b as usize, seen + 1);
        assert forall|c: u8| #[trigger] counts@[c as int] == count_of(part, c) && counts@[c as int]
            <= i + 1 by {
            assert(before[c as int] == count_of(part.drop_last(), c));
        }
    }
    assert(block@.take(n as int) =~= block@);
    counts
}

/// Ranks the symbols of an alphabet by how rare they are.
fn rank_rare(block: &[u8], alphabet: &Vec<u8>) -> (order: Vec<usize>)
    requires
        alphabet@ == alphabet_of(block@),
    ensures
        order@.len() == alphabet@.len(),
        ranked(rarity(block@)).len() == alphabet@.len(),
        forall|p: int| 0 <= p < order@.len() ==> #[trigger] order@[p] == ranked(rarity(block@))[p],
        forall|p: int| 0 <= p < order@.len() ==> #[trigger] order@[p] < alphabet@.len(),
{
    let counts = count_bytes(block);
    let mut weights: Vec<u64> = Vec::new();
    let n: usize = alphabet.len();
    for i in 0..n
        invariant
            n == alphabet@.len(),
            alphabet@ == alphabet_of(block@),
            counts@.len() == 256,
            forall|b: u8| #[trigger] counts@[b as int] == count_of(block@, b),
            forall|b: u8| #[trigger] counts@[b as int] <= block@.len(),
            weights@ =~= rarity(block@).take(i as int),
    {
        let b: u8 = alphabet[i];
        assert(counts@[b as int] <= block@.len());
        weights.push((block.len() - counts[b as usize]) as u64);
    }
    assert(weights@ =~= rarity(block@));
    rank(&weights)
}

/// Marks the `k` rarest bytes.
fn mark_rare(block: &[u8], alphabet: &Vec<u8>, order: &Vec<usize>, k: usize) -> (marks: Vec<bool>)
    requires
        alphabet@ == alphabet_of(block@),
        order@.len() == alphabet@.len(),
        ranked(rarity(block@)).len() == alphabet@.len(),
        forall|p: int| 0 <= p < order@.len() ==> #[trigger] order@[p] == ranked(rarity(block@))[p],
        forall|p: int| 0 <= p < order@.len() ==> #[trigger] order@[p] < alphabet@.len(),
    ensures
        marks@.len() == 256,
        forall|b: u8| #[trigger] marks@[b as int] == is_rare(block@, k as nat, b),
{
    let mut marks: Vec<bool> = vec![false; 256];
    let n: usize = if k < order.len() {
        k
    } else {
        order.len()
    };
    let ghost ranking = ranked(rarity(block@));
    for p in 0..n
        invariant
            n <= order@.len(),
            n <= k,
            alphabet@ == alphabet_of(block@),
            order@.len() == alphabet@.len(),
            ranking == ranked(rarity(block@)),
            ranking.len() == alphabet@.len(),
            forall|p: int| 0 <= p < order@.len() ==> #[trigger] order@[p] == ranking[p],
            forall|p: int| 0 <= p < order@.len() ==> #[trigger] order@[p] < alphabet@.len(),
            marks@.len() == 256,
            forall|b: u8|
                #[trigger] marks@[b as int] ==> exists|q: int|
                    0 <= q < p && alphabet@[#[trigger] ranking[q]] == b,
            forall|q: int| 0 <= q < p ==> marks@[alphabet@[#[trigger] ranking[q]] as int],
    {
        let ghost before = marks@;
        let b: u8 = alphabet[order[p]];
        marks.set(b as usize, true);
        proof {
            assert(alphabet@[ranking[p as int]] == b);
            assert forall|c: u8| #[trigger] marks@[c as int] implies exists|q: int|
                0 <= q < p + 1 && alphabet@[#[trigger] ranking[q]] == c by {
                if c != b {
                    assert(before[c as int]);
                }
            }
        }
    }
    proof {
        assert forall|b: u8| #[trigger] marks@[b as int] == is_rare(block@, k as nat, b) by {
            if is_rare(block@, k as nat, b) {
                let p = choose|p: int|
                    0 <= p < k && p < ranking.len() && alphabet_of(block@)[#[trigger] ranking[p]]
                        == b;
                assert(marks@[alphabet@[ranking[p]] as int]);
            }
        }
    }
    marks
}

/// Picks the symbols of an alphabet that are marked, or those that are not.
fn pick(alphabet: &Vec<u8>, marks: &Vec<bool>, wanted: bool, Ghost(f): Ghost<spec_fn(u8) -> bool>) -> (
    picked: Vec<u8>)
    requires
        marks@.len() == 256,
        forall|b: u8| (#[trigger] marks@[b as int] == wanted) == f(b),
    ensures
        picked@ == kept(alphabet@, f),
{
    let mut picked: Vec<u8> = Vec::new();
    let n: usize = alphabet.len();
    for i in 0..n
        invariant
            n == alphabet@.len(),
            marks@.len() == 256,
            forall|b: u8| (#[trigger] marks@[b as int] == wanted) == f(b),
            picked@ == kept(alphabet@.take(i as int), f),
    {
        let b: u8 = alphabet[i];
        assert(alphabet@.take(i + 1).drop_last() =~= alphabet@.take(i as int));
        assert((marks@[b as int] == wanted) == f(b));
        if marks[b as usize] == wanted {
            picked.push(b);
        }
    }
    assert(alphabet@.take(n as int) =~= alphabet@);
    picked
}

/// Encodes a block with its `k` rarest symbols kept apart.
fn build_candidate(
    block: &[u8],
    analysis: &BlockAnalysis,
    order: &Vec<usize>,
    k: usize,
) -> (r: Option<SparseAlphabetBlock>)
    requires
        analysis@ == alphabet_of(block@),
        block@.len() <= u32::MAX,
        order@.len() == analysis@.len(),
        ranked(rarity(block@)).len() == analysis@.len(),
        forall|p: int| 0 <= p < order@.len() ==> #[trigger] order@[p] == ranked(rarity(block@))[p],
        forall|p: int| 0 <= p < order@.len() ==> #[trigger] order@[p] < analysis@.len(),
    ensures
        match r {
            Some(b) => sparse_candidate(block@, k as nat) == Some(b@),
            None => sparse_candidate(block@, k as nat) is None,
        },
{
    let alphabet = &analysis.unique_sorted_bytes;
    let ghost is_exception = rare(block@, k as nat);
    let ghost is_dense = common(block@, k as nat);
    proof {
        lemma_alphabet(block@);
        lemma_kept(alphabet@, is_exception);
        lemma_kept(alphabet@, is_dense);
    }
    let marks = mark_rare(block, alphabet, order, k);
    let exceptions = pick(alphabet, &marks, true, Ghost(is_exception));
    if exceptions.len() == 0 || exceptions.len() >= alphabet.len() {
        return None;
    }
    let dense = pick(alphabet, &marks, false, Ghost(is_dense));
    let dense_bit_width: u8 = bit_width_for_cardinality(dense.len());
    if dense_bit_width >= 8 {
        return None;
    }
    let dense_table = place_table(&dense);
    let exception_table = place_table(&exceptions);
    let mut dense_indices: Vec<u8> = Vec::new();
    let mut exception_indices: Vec<u8> = Vec::new();
    let mut positions: Vec<usize> = Vec::new();
    let n: usize = block.len();
    for i in 0..n
        invariant
            n == block@.len(),
            n <= usize::MAX,
            alphabet@ == alphabet_of(block@),
            is_exception == rare(block@, k as nat),
            is_dense == common(block@, k as nat),
            forall|b: u8| #[trigger] alphabet_of(block@).contains(b) <==> block@.contains(b),
            marks@.len() == 256,
            forall|b: u8| #[trigger] marks@[b as int] == is_rare(block@, k as nat, b),
            dense@ == kept(alphabet@, is_dense),
            exceptions@ == kept(alphabet@, is_exception),
            forall|b: u8| #[trigger] dense@.contains(b) <==> alphabet@.contains(b) && is_dense(b),
            forall|b: u8|
                #[trigger] exceptions@.contains(b) <==> alphabet@.contains(b) && is_exception(b),
            dense_table@.len() == 256,
            exception_table@.len() == 256,
            forall|b: u8|
                dense@.contains(b) ==> #[trigger] dense_table@[b as int] == place(dense@, b),
            forall|b: u8|
                exceptions@.contains(b) ==> #[trigger] exception_table@[b as int] == place(
                    exceptions@,
                    b,
                ),
            dense_indices@ =~= places(dense@, kept(block@.take(i as int), is_dense)),
            exception_indices@ =~= places(exceptions@, kept(block@.take(i as int), is_exception)),
            positions@ == kept_positions(block@.take(i as int), is_exception),
    {
        let b: u8 = block[i];
        assert(block@.take(i + 1).drop_last() =~= block@.take(i as int));
        assert(block@.contains(b));
        assert(alphabet@.contains(b));
        assert(marks@[b as int] == is_exception(b));
        if marks[b as usize] {
            assert(exceptions@.contains(b));
            exception_indices.push(exception_table[b as usize]);
            positions.push(i);
        } else {
            assert(dense@.contains(b));
            dense_indices.push(dense_table[b as usize]);
        }
    }
    assert(block@.take(n as int) =~= block@);
    proof {
        lemma_kept(block@, is_exception);
        assert forall|i: int| 0 < i < positions@.len() implies positions@[i - 1]
            <= #[trigger] positions@[i] by {
            assert(positions@[i - 1] < positions@[i]);
        }
        vstd::arithmetic::power2::lemma2_to64();
        crate::bitstream::lemma_bit_len((exceptions@.len() - 1) as nat, 8);
    }
    let dense_breadcrumbs = pack_indices(dense_indices.as_slice(), dense_bit_width);
    let packed_exceptions = pack_indices(
        exception_indices.as_slice(),
        bit_width_for_cardinality(exceptions.len()),
    );
    let exception_positions = encode_position_deltas(positions.as_slice());
    Some(
        SparseAlphabetBlock {
            original_len: n as u32,
            dense_alphabet: dense,
            dense_bit_width,
            dense_breadcrumbs,
            exception_alphabet: exceptions,
            exception_indices: packed_exceptions,
            exception_positions,
        },
    )
}

/// Encodes a block with up to three rare symbols kept apart.
pub fn try_encode_sparse_alphabet_block(block: &[u8], analysis: &BlockAnalysis) -> (r: Result<
    Option<BlockEncoding>,
    String,
>)
    requires
        analysis@ == alphabet_of(block@),
        block@.len() <= u32::MAX,
    ensures
        produced(
            r,
            match sparse_block(block@, 3) {
                Some(b) => Some(BlockView::SparseAlphabet(b)),
                None => None,
            },
        ),
{
    if analysis.unique_sorted_bytes.len() <= 1 {
        return Ok(None);
    }
    let order = rank_rare(block, &analysis.unique_sorted_bytes);
    let mut best: Option<BlockEncoding> = None;
    let mut best_size: u128 = 0;
    for k in 1..4usize
        invariant
            analysis@ == alphabet_of(block@),
            analysis@.len() > 1,
            block@.len() <= u32::MAX,
            order@.len() == analysis@.len(),
            ranked(rarity(block@)).len() == analysis@.len(),
            forall|p: int|
                0 <= p < order@.len() ==> #[trigger] order@[p] == ranked(rarity(block@))[p],
            forall|p: int| 0 <= p < order@.len() ==> #[trigger] order@[p] < analysis@.len(),
            match (best, sparse_block(block@, (k - 1) as nat)) {
                (Some(b), Some(v)) => b@ == BlockView::SparseAlphabet(v) && best_size == block_size(
                    b@,
                ),
                (None, None) => true,
                _ => false,
            },
    {
        if let Some(candidate) = build_candidate(block, analysis, &order, k) {
            let encoded = BlockEncoding::SparseAlphabet(candidate);
            let size: u128 = wire_size(&encoded);
            if best.is_none() || size < best_size {
                best = Some(encoded);
                best_size = size;
            }
        }
    }
    Ok(best)
}

/// The block rebuilt from the symbols in `done` on, `e` of which were
/// exceptions.
pub open spec fn merged(
    b: SparseView,
    positions: Seq<usize>,
    exceptions: Seq<u8>,
    dense: Seq<u8>,
    e: int,
    done: Seq<u8>,
) -> Result<Seq<u8>, Seq<char>>
    decreases b.original_len - done.len(),
{
    if done.len() >= b.original_len {
        Ok(done)
    } else if e < positions.len() && positions[e] == done.len() {
        let symbol = b.exception_alphabet[exceptions[e] as int];
        merged(b, positions, exceptions, dense, e + 1, done.push(symbol))
    } else {
        let d = done.len() - e;
        if d >= dense.len() {
            Err("dense sparse-alphabet stream is truncated"@)
        } else if dense[d] >= b.dense_alphabet.len() {
            Err("dense sparse-alphabet index is out of range"@)
        } else {
            let symbol = b.dense_alphabet[dense[d] as int];
            merged(b, positions, exceptions, dense, e, done.push(symbol))
        }
    }
}

/// What decoding a sparse alphabet block gives.
pub open spec fn decoded_sparse(b: SparseView) -> Result<Seq<u8>, Seq<char>> {
    match positions_from(b.exception_positions, 0, Seq::empty()) {
        Err(e) => Err(e),
        Ok(positions) => if positions.len() > b.original_len {
            Err("sparse alphabet exception count exceeds block length"@)
        } else {
            match unpacked_indices(
                b.exception_indices,
                index_width(b.exception_alphabet.len()) as int,
                positions.len() as int,
            ) {
                Err(e) => Err(e),
                Ok(exceptions) => match unpacked_indices(
                    b.dense_breadcrumbs,
                    b.dense_bit_width as int,
                    b.original_len - positions.len(),
                ) {
                    Err(e) => Err(e),
                    Ok(dense) => if !indices_fit(b.exception_alphabet, exceptions) {
                        Err("sparse alphabet exception index is out of range"@)
                    } else {
                        merged(b, positions, exceptions, dense, 0, Seq::empty())
                    },
                },
            }
        },
    }
}

/// Decodes a sparse alphabet block.
pub fn decode_sparse_alphabet_block(block: &SparseAlphabetBlock) -> (r: Result<Vec<u8>, String>)
    ensures
        outcome(r) == decoded_sparse(block@),
{
    let original_len: usize = block.original_len as usize;
    let positions = match decode_position_deltas(block.exception_positions.as_slice()) {
        Ok(p) => p,
        Err(e) => return Err(e),
    };
    let count: usize = positions.len();
    if count > original_len {
        return Err("sparse alphabet exception count exceeds block length".to_string());
    }
    let exceptions = match unpack_indices(
        block.exception_indices.as_slice(),
        bit_width_for_cardinality(block.exception_alphabet.len()),
        count,
    ) {
        Ok(v) => v,
        Err(e) => return Err(e),
    };
    let dense = match unpack_indices(
        block.dense_breadcrumbs.as_slice(),
        block.dense_bit_width,
        original_len - count,
    ) {
        Ok(v) => v,
        Err(e) => return Err(e),
    };
    let ghost b = block@;
    for i in 0..count
        invariant
            b == block@,
            count == exceptions@.len(),
            positions_from(b.exception_positions, 0, Seq::empty()) == Ok::<Seq<usize>, Seq<char>>(
                positions@,
            ),
            positions@.len() == count <= b.original_len,
            unpacked_indices(
                b.exception_indices,
                index_width(b.exception_alphabet.len()) as int,
                count as int,
            ) == Ok::<Seq<u8>, Seq<char>>(exceptions@),
            unpacked_indices(
                b.dense_breadcrumbs,
                b.dense_bit_width as int,
                b.original_len - count,
            ) == Ok::<Seq<u8>, Seq<char>>(dense@),
            forall|k: int|
                0 <= k < i ==> (#[trigger] exceptions@[k] as int) < b.exception_alphabet.len(),
    {
        if exceptions[i] as usize >= block.exception_alphabet.len() {
            assert(exceptions@[i as int] as int >= b.exception_alphabet.len());
            return Err("sparse alphabet exception index is out of range".to_string());
        }
    }
    let mut e: usize = 0;
    let mut out: Vec<u8> = Vec::new();
    while out.len() < original_len
        invariant
            b == block@,
            original_len == b.original_len,
            count == exceptions@.len() == positions@.len(),
            e <= count,
            e <= out@.len() <= original_len,
            indices_fit(b.exception_alphabet, exceptions@),
            decoded_sparse(b) == merged(b, positions@, exceptions@, dense@, e as int, out@),
        decreases original_len - out@.len(),
    {
        let p: usize = out.len();
        if e < count && positions[e] == p {
            let index: usize = exceptions[e] as usize;
            out.push(block.exception_alphabet[index]);
            e = e + 1;
        } else {
            let d: usize = p - e;
            if d >= dense.len() {
                return Err("dense sparse-alphabet stream is truncated".to_string());
            }
            let index: usize = dense[d] as usize;
            if index >= block.dense_alphabet.len() {
                return Err("dense sparse-alphabet index is out of range".to_string());
            }
            out.push(block.dense_alphabet[index]);
        }
    }
    Ok(out)
}

/// What is kept of a prefix is a prefix of what is kept.
proof fn lemma_kept_prefix(s: Seq<u8>, f: spec_fn(u8) -> bool, p: int)
    requires
        0 <= p <= s.len() <= usize::MAX,
    ensures
        kept(s.take(p), f).len() <= kept(s, f).len(),
        kept(s.take(p), f) == kept(s, f).take(kept(s.take(p), f).len() as int),
        kept_positions(s.take(p), f) == kept_positions(s, f).take(
            kept(s.take(p), f).len() as int,
        ),
    decreases s.len() - p,
{
    lemma_kept(s, f);
    lemma_kept(s.take(p), f);
    if p == s.len() {
        assert(s.take(p) =~= s);
        assert(kept(s, f).take(kept(s, f).len() as int) =~= kept(s, f));
        assert(kept_positions(s, f).take(kept(s, f).len() as int) =~= kept_positions(s, f));
    } else {
        let t = s.take(p + 1);
        assert(t.drop_last() =~= s.take(p));
        lemma_kept_prefix(s, f, p + 1);
        let n = kept(s.take(p), f).len() as int;
        assert(kept(s.take(p), f) =~= kept(s, f).take(n));
        assert(kept_positions(s.take(p), f) =~= kept_positions(s, f).take(n));
    }
}

/// Every kept position holds an element that satisfies the predicate.
proof fn lemma_kept_positions(s: Seq<u8>, f: spec_fn(u8) -> bool)
    requires
        s.len() <= usize::MAX,
    ensures
        forall|i: int|
            0 <= i < kept_positions(s, f).len() ==> f(s[#[trigger] kept_positions(s, f)[i] as int]),
    decreases s.len(),
{
    if s.len() > 0 {
        let front = s.drop_last();
        lemma_kept_positions(front, f);
        lemma_kept(front, f);
        let p = kept_positions(s, f);
        let q = kept_positions(front, f);
        assert forall|i: int| 0 <= i < p.len() implies f(s[#[trigger] p[i] as int]) by {
            if i < q.len() {
                assert(f(front[q[i] as int]));
                assert(front[q[i] as int] == s[q[i] as int]);
            }
        }
    }
}

/// What two opposite predicates keep makes up the whole.
proof fn lemma_kept_split(s: Seq<u8>, f: spec_fn(u8) -> bool, g: spec_fn(u8) -> bool)
    requires
        forall|b: u8| #[trigger] g(b) == !f(b),
    ensures
        kept(s, f).len() + kept(s, g).len() == s.len(),
    decreases s.len(),
{
    if s.len() > 0 {
        lemma_kept_split(s.drop_last(), f, g);
        assert(g(s.last()) == !f(s.last()));
    }
}

proof fn lemma_merged(
    b: SparseView,
    block: Seq<u8>,
    f: spec_fn(u8) -> bool,
    g: spec_fn(u8) -> bool,
    p: int,
)
    requires
        0 <= p <= block.len(),
        block.len() == b.original_len,
        forall|x: u8| #[trigger] g(x) == !f(x),
        forall|i: int|
            0 <= i < block.len() && f(#[trigger] block[i]) ==> b.exception_alphabet.contains(
                block[i],
            ),
        forall|i: int|
            0 <= i < block.len() && g(#[trigger] block[i]) ==> b.dense_alphabet.contains(block[i]),
        b.exception_alphabet.len() <= 256,
        b.dense_alphabet.len() <= 256,
    ensures
        merged(
            b,
            kept_positions(block, f),
            places(b.exception_alphabet, kept(block, f)),
            places(b.dense_alphabet, kept(block, g)),
            kept(block.take(p), f).len() as int,
            block.take(p),
        ) == Ok::<Seq<u8>, Seq<char>>(block),
    decreases block.len() - p,
{
    let positions = kept_positions(block, f);
    let ei = places(b.exception_alphabet, kept(block, f));
    let di = places(b.dense_alphabet, kept(block, g));
    let e = kept(block.take(p), f).len() as int;
    if p == block.len() {
        assert(block.take(p) =~= block);
    } else {
        let t = block.take(p + 1);
        assert(t.drop_last() =~= block.take(p));
        lemma_kept(block, f);
        lemma_kept(block, g);
        lemma_kept_prefix(block, f, p + 1);
        lemma_kept_prefix(block, g, p + 1);
        lemma_kept_split(block.take(p), f, g);
        lemma_kept_positions(block, f);
        lemma_kept(t, f);
        let x = block[p];
        assert(t.last() == x);
        assert(block.take(p).push(x) =~= t);
        lemma_merged(b, block, f, g, p + 1);
        if f(x) {
            assert(kept(t, f)[e] == x);
            assert(kept(block, f)[e] == x);
            assert(kept_positions(t, f)[e] == p);
            assert(positions[e] == p);
            crate::codec::alphabet::lemma_place(b.exception_alphabet, x);
        } else {
            assert(g(x));
            let d = p - e;
            assert(kept(t, g)[d] == x);
            assert(kept(block, g)[d] == x);
            crate::codec::alphabet::lemma_place(b.dense_alphabet, x);
            if e < positions.len() && positions[e] == p {
                assert(f(block[positions[e] as int]));
            }
        }
    }
}

/// Decoding a block with rare symbols kept apart gives the block back.
proof fn lemma_candidate_roundtrip(block: Seq<u8>, k: nat)
    requires
        sparse_candidate(block, k) is Some,
        block.len() <= u32::MAX,
    ensures
        decoded_sparse(sparse_candidate(block, k)->Some_0) == Ok::<Seq<u8>, Seq<char>>(block),
{
    let b = sparse_candidate(block, k)->Some_0;
    let (f, g) = (rare(block, k), common(block, k));
    let alphabet = alphabet_of(block);
    lemma_alphabet(block);
    lemma_kept(alphabet, f);
    lemma_kept(alphabet, g);
    lemma_kept(block, f);
    lemma_kept(block, g);
    lemma_kept_split(block, f, g);
    assert forall|i: int| 0 <= i < block.len() implies alphabet.contains(#[trigger] block[i]) by {
        assert(block.contains(block[i]));
    }
    let positions = kept_positions(block, f);
    if positions.len() > 0 {
        assert(positions.last() < block.len());
    }
    crate::varint::law_positions_roundtrip(positions);
    let (rare_symbols, common_symbols) = (kept(block, f), kept(block, g));
    assert forall|i: int| 0 <= i < rare_symbols.len() implies b.exception_alphabet.contains(
        #[trigger] rare_symbols[i],
    ) by {
        assert(rare_symbols.contains(rare_symbols[i]));
        assert(block.contains(rare_symbols[i]));
        assert(alphabet.contains(rare_symbols[i]));
    }
    assert forall|i: int| 0 <= i < common_symbols.len() implies b.dense_alphabet.contains(
        #[trigger] common_symbols[i],
    ) by {
        assert(common_symbols.contains(common_symbols[i]));
        assert(block.contains(common_symbols[i]));
        assert(alphabet.contains(common_symbols[i]));
    }
    crate::codec::alphabet::lemma_lookup(b.exception_alphabet, rare_symbols);
    crate::codec::alphabet::lemma_lookup(b.dense_alphabet, common_symbols);
    lemma_merged(b, block, f, g, 0);
    assert(block.take(0) =~= Seq::empty());
}

/// The alphabets of a candidate, and what its streams hold.
pub proof fn lemma_candidate_shape(block: Seq<u8>, k: nat)
    requires
        sparse_candidate(block, k) is Some,
        block.len() <= u32::MAX,
    ensures
        ({
            let b = sparse_candidate(block, k)->Some_0;
            let positions = kept_positions(block, rare(block, k));
            &&& sorted_symbols(b.dense_alphabet)
            &&& 0 < b.dense_alphabet.len() <= 255
            &&& sorted_symbols(b.exception_alphabet)
            &&& 0 < b.exception_alphabet.len() <= 255
            &&& positions_from(b.exception_positions, 0, Seq::empty()) == Ok::<
                Seq<usize>,
                Seq<char>,
            >(positions)
            &&& positions.len() <= block.len()
            &&& forall|i: int|
                0 <= i < positions.len() ==> #[trigger] positions[i] < block.len()
            &&& b.dense_breadcrumbs.len() == ceil_div(
                (block.len() - positions.len()) as nat * b.dense_bit_width as nat,
                8,
            )
            &&& b.exception_indices.len() == ceil_div(
                positions.len() * index_width(b.exception_alphabet.len()),
                8,
            )
        }),
{
    let b = sparse_candidate(block, k)->Some_0;
    let (f, g) = (rare(block, k), common(block, k));
    let alphabet = alphabet_of(block);
    lemma_alphabet(block);
    lemma_kept(alphabet, f);
    lemma_kept(alphabet, g);
    lemma_kept(block, f);
    lemma_kept(block, g);
    lemma_kept_split(block, f, g);
    lemma_kept_split(alphabet, f, g);
    let positions = kept_positions(block, f);
    crate::varint::law_positions_roundtrip(positions);
    let (dense, exceptions) = (b.dense_alphabet, b.exception_alphabet);
    vstd::arithmetic::power2::lemma2_to64();
    lemma_bit_len((exceptions.len() - 1) as nat, 8);
    lemma_index_bits(places(dense, kept(block, g)), index_width(dense.len()));
    lemma_index_bits(places(exceptions, kept(block, f)), index_width(exceptions.len()));
    vstd::arithmetic::mul::lemma_mul_is_commutative(
        kept(block, g).len() as int,
        b.dense_bit_width as int,
    );
    vstd::arithmetic::mul::lemma_mul_is_commutative(
        positions.len() as int,
        index_width(exceptions.len()) as int,
    );
}

/// A sparse block is one of the three candidates.
pub proof fn lemma_sparse_choice(block: Seq<u8>, n: nat) -> (k: nat)
    requires
        sparse_block(block, n) is Some,
    ensures
        1 <= k <= n,
        sparse_block(block, n) == sparse_candidate(block, k),
    decreases n,
{
    let best = sparse_block(block, (n - 1) as nat);
    if sparse_block(block, n) == sparse_candidate(block, n) {
        n
    } else {
        lemma_sparse_choice(block, (n - 1) as nat)
    }
}

/// Decoding a sparse alphabet block gives back the block it was made from.
pub proof fn law_sparse_roundtrip(block: Seq<u8>)
    requires
        sparse_block(block, 3) is Some,
        block.len() <= u32::MAX,
    ensures
        decoded_sparse(sparse_block(block, 3)->Some_0) == Ok::<Seq<u8>, Seq<char>>(block),
{
    let k = lemma_sparse_choice(block, 3);
    lemma_candidate_roundtrip(block, k);
}

proof fn lemma_count_bound(block: Seq<u8>, b: u8)
    ensures
        count_of(block, b) <= block.len(),
    decreases block.len(),
{
    if block.len() > 0 {
        lemma_count_bound(block.drop_last(), b);
    }
}

/// As many symbols are rare as were asked for, if there are so many.
proof fn lemma_rare_count(block: Seq<u8>, k: nat)
    ensures
        kept(alphabet_of(block), rare(block, k)).len() == (if k < alphabet_of(block).len() {
            k
        } else {
            alphabet_of(block).len()
        }),
{
    let alphabet = alphabet_of(block);
    let f = rare(block, k);
    let some = kept(alphabet, f);
    let order = ranked(rarity(block));
    let m = if k < alphabet.len() {
        k
    } else {
        alphabet.len()
    };
    lemma_alphabet(block);
    lemma_kept(alphabet, f);
    crate::order::lemma_ranked(rarity(block));
    assert forall|p: int| 0 <= p < order.len() implies 0 <= #[trigger] order[p] < alphabet.len() by {
        assert(order.contains(order[p]));
    }
    let listed = Seq::new(m, |p: int| alphabet[order[p]]);
    assert(listed.no_duplicates()) by {
        assert forall|p: int, q: int| 0 <= p < q < m implies listed[p] != listed[q] by {
            assert(crate::order::ranks_before(rarity(block), order[p], order[q]));
            let (i, j) = (order[p], order[q]);
            if i < j {
                assert(alphabet[i] < alphabet[j]);
            } else {
                assert(alphabet[j] < alphabet[i]);
            }
        }
    }
    assert(some.no_duplicates()) by {
        assert forall|i: int, j: int| 0 <= i < j < some.len() implies some[i] != some[j] by {
            assert(some[i] < some[j]);
        }
    }
    assert forall|b: u8| some.to_set().contains(b) <==> listed.to_set().contains(b) by {
        if some.contains(b) {
            assert(is_rare(block, k, b));
            let p = choose|p: int|
                0 <= p < k && p < order.len() && alphabet[#[trigger] order[p]] == b;
            assert(listed[p] == b);
        }
        if listed.contains(b) {
            let p = choose|p: int| 0 <= p < listed.len() && listed[p] == b;
            assert(alphabet[order[p]] == b);
            assert(is_rare(block, k, b));
            assert(alphabet.contains(b));
            assert(some.contains(b));
        }
    }
    assert(some.to_set() =~= listed.to_set());
    some.unique_seq_to_set();
    listed.unique_seq_to_set();
}

/// A rare symbol occurs no more often than any other.
proof fn lemma_rare_is_rarer(block: Seq<u8>, k: nat, e: u8, d: u8)
    requires
        block.len() <= u32::MAX,
        is_rare(block, k, e),
        !is_rare(block, k, d),
        alphabet_of(block).contains(d),
    ensures
        count_of(block, e) <= count_of(block, d),
{
    let alphabet = alphabet_of(block);
    let weights = rarity(block);
    let order = ranked(weights);
    crate::order::lemma_ranked(weights);
    lemma_count_bound(block, e);
    lemma_count_bound(block, d);
    let p = choose|p: int| 0 <= p < k && p < order.len() && alphabet[#[trigger] order[p]] == e;
    assert(order.contains(order[p]));
    let i = choose|i: int| 0 <= i < alphabet.len() && alphabet[i] == d;
    assert(order.contains(i));
    let q = choose|q: int| 0 <= q < order.len() && order[q] == i;
    assert(alphabet[order[q]] == d);
    assert(q >= k);
    assert(crate::order::ranks_before(weights, order[p], order[q]));
}

/// Where there is a candidate.
proof fn lemma_candidate_exists(block: Seq<u8>, k: nat)
    ensures
        sparse_candidate(block, k) is Some <==> 0 < k < alphabet_of(block).len() <= k + 128,
{
    let alphabet = alphabet_of(block);
    lemma_rare_count(block, k);
    lemma_kept_split(alphabet, rare(block, k), common(block, k));
    let dense = kept(alphabet, common(block, k)).len();
    if dense > 1 {
        lemma_bit_len((dense - 1) as nat, 7);
    }
    vstd::arithmetic::power2::lemma2_to64();
}

/// A block has a sparse form exactly where it has from 2 to 131 different
/// bytes. The form keeps one to three of them apart, none of which occurs more
/// often than any other byte; the two alphabets are sorted, have nothing in
/// common, and are together the bytes of the block.
pub proof fn law_sparse_form(block: Seq<u8>)
    requires
        block.len() <= u32::MAX,
    ensures
        sparse_block(block, 3) is Some <==> 2 <= alphabet_of(block).len() <= 131,
        sparse_block(block, 3) matches Some(b) ==> {
            &&& 1 <= b.exception_alphabet.len() <= 3
            &&& b.dense_alphabet.len() + b.exception_alphabet.len() == alphabet_of(block).len()
            &&& sorted_symbols(b.dense_alphabet)
            &&& sorted_symbols(b.exception_alphabet)
            &&& forall|x: u8|
                #![trigger b.dense_alphabet.contains(x)]
                #![trigger b.exception_alphabet.contains(x)]
                alphabet_of(block).contains(x) <==> (b.dense_alphabet.contains(x)
                    || b.exception_alphabet.contains(x))
            &&& forall|x: u8|
                !(#[trigger] b.dense_alphabet.contains(x)
                    && #[trigger] b.exception_alphabet.contains(x))
            &&& forall|e: u8, d: u8|
                #[trigger] b.exception_alphabet.contains(e)
                    && #[trigger] b.dense_alphabet.contains(d) ==> count_of(block, e)
                    <= count_of(block, d)
        },
{
    let alphabet = alphabet_of(block);
    lemma_candidate_exists(block, 1);
    lemma_candidate_exists(block, 2);
    lemma_candidate_exists(block, 3);
    reveal_with_fuel(sparse_block, 4);
    if sparse_block(block, 3) is Some {
        let k = lemma_sparse_choice(block, 3);
        let b = sparse_candidate(block, k)->Some_0;
        lemma_alphabet(block);
        lemma_kept(alphabet, rare(block, k));
        lemma_kept(alphabet, common(block, k));
        lemma_kept_split(alphabet, rare(block, k), common(block, k));
        lemma_rare_count(block, k);
        assert forall|e: u8, d: u8|
            #[trigger] b.exception_alphabet.contains(e)
                && #[trigger] b.dense_alphabet.contains(d) implies count_of(block, e)
            <= count_of(block, d) by {
            lemma_rare_is_rarer(block, k, e, d);
        }
    }
}

/// The sparse form is the shortest that keeping one, two or three symbols apart
/// gives, with the fewest symbols among equals.
pub proof fn law_sparse_form_is_shortest(block: Seq<u8>, k: nat)
    requires
        1 <= k <= 3,
        sparse_candidate(block, k) is Some,
    ensures
        sparse_block(block, 3) matches Some(b) && ({
            let size = block_size(BlockView::SparseAlphabet(sparse_candidate(block, k)->Some_0));
            &&& block_size(BlockView::SparseAlphabet(b)) <= size
            &&& b.exception_alphabet.len() > k ==> block_size(BlockView::SparseAlphabet(b)) < size
        }),
{
    lemma_rare_count(block, 1);
    lemma_rare_count(block, 2);
    lemma_rare_count(block, 3);
    lemma_candidate_exists(block, k);
    reveal_with_fuel(sparse_block, 4);
}

proof fn lemma_merged_symbols(
    b: SparseView,
    positions: Seq<usize>,
    exceptions: Seq<u8>,
    dense: Seq<u8>,
    e: int,
    done: Seq<u8>,
)
    requires
        done.len() <= b.original_len,
        0 <= e,
        indices_fit(b.exception_alphabet, exceptions),
        exceptions.len() == positions.len(),
        forall|i: int|
            0 <= i < done.len() ==> b.dense_alphabet.contains(#[trigger] done[i])
                || b.exception_alphabet.contains(done[i]),
    ensures
        merged(b, positions, exceptions, dense, e, done) matches Ok(out) ==> out.len()
            == b.original_len && forall|i: int|
            0 <= i < out.len() ==> b.dense_alphabet.contains(#[trigger] out[i])
                || b.exception_alphabet.contains(out[i]),
    decreases b.original_len - done.len(),
{
    if done.len() < b.original_len {
        if e < positions.len() && positions[e] == done.len() {
            let symbol = b.exception_alphabet[exceptions[e] as int];
            assert(b.exception_alphabet.contains(symbol));
            lemma_merged_symbols(b, positions, exceptions, dense, e + 1, done.push(symbol));
        } else {
            let d = done.len() - e;
            if d < dense.len() && dense[d] < b.dense_alphabet.len() {
                let symbol = b.dense_alphabet[dense[d] as int];
                assert(b.dense_alphabet.contains(symbol));
                lemma_merged_symbols(b, positions, exceptions, dense, e, done.push(symbol));
            }
        }
    }
}

/// What a sparse alphabet block is decoded to is as long as it says, and all its
/// bytes are in one of the two alphabets.
pub proof fn law_sparse_symbols(b: SparseView)
    ensures
        decoded_sparse(b) matches Ok(out) ==> out.len() == b.original_len && forall|i: int|
            0 <= i < out.len() ==> b.dense_alphabet.contains(#[trigger] out[i])
                || b.exception_alphabet.contains(out[i]),
{
    if decoded_sparse(b) is Ok {
        let positions = positions_from(b.exception_positions, 0, Seq::empty())->Ok_0;
        let exceptions = unpacked_indices(
            b.exception_indices,
            index_width(b.exception_alphabet.len()) as int,
            positions.len() as int,
        )->Ok_0;
        let dense = unpacked_indices(
            b.dense_breadcrumbs,
            b.dense_bit_width as int,
            b.original_len - positions.len(),
        )->Ok_0;
        lemma_merged_symbols(b, positions, exceptions, dense, 0, Seq::empty());
    }
}

proof fn lemma_kept_places(s: Seq<u8>, f: spec_fn(u8) -> bool, p: int)
    requires
        0 <= p < s.len() <= usize::MAX,
    ensures
        kept_positions(s, f).contains(p as usize) <==> f(s[p]),
    decreases s.len(),
{
    let front = s.drop_last();
    let before = kept_positions(front, f);
    let all = kept_positions(s, f);
    lemma_kept(front, f);
    if p < front.len() {
        lemma_kept_places(front, f, p);
        if before.contains(p as usize) {
            let k = choose|k: int| 0 <= k < before.len() && before[k] == p as usize;
            assert(all[k] == p as usize);
        }
        if all.contains(p as usize) {
            let k = choose|k: int| 0 <= k < all.len() && all[k] == p as usize;
            if k < before.len() {
                assert(before[k] == p as usize);
            }
        }
    } else {
        if f(s[p]) {
            assert(all[before.len() as int] == p as usize);
        }
        if before.contains(p as usize) {
            let k = choose|k: int| 0 <= k < before.len() && before[k] == p as usize;
            assert(before[k] < front.len());
        }
    }
}

/// The sparse form lists, ascending, just the places of the bytes that it keeps
/// apart.
pub proof fn law_sparse_positions(block: Seq<u8>, p: int)
    requires
        block.len() <= u32::MAX,
        sparse_block(block, 3) is Some,
        0 <= p < block.len(),
    ensures
        ({
            let b = sparse_block(block, 3)->Some_0;
            positions_from(b.exception_positions, 0, Seq::empty()) matches Ok(places) && ascending(
                places,
            ) && (places.contains(p as usize) <==> b.exception_alphabet.contains(block[p]))
        }),
{
    let k = lemma_sparse_choice(block, 3);
    let f = rare(block, k);
    let places = kept_positions(block, f);
    lemma_kept(block, f);
    if places.len() > 0 {
        assert(places[places.len() - 1] < block.len());
    }
    crate::varint::law_positions_roundtrip(places);
    lemma_kept_places(block, f, p);
    lemma_alphabet(block);
    lemma_kept(alphabet_of(block), f);
    assert(block.contains(block[p]));
    assert(alphabet_of(block).contains(block[p]));
}

} // verus!
