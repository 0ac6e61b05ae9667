//! Reversible operators on 64-bit words.
use vstd::prelude::*;
use crate::kernel::key::GenerativeBlueprint;
use crate::order::{rank, ranked};
use crate::text::outcome;
use crate::words::{
    lemma_rotation_linear, lemma_rotations_invert, lemma_xor, lemma_xor_regroup, rotate_left,
    rotate_right, rotl, rotr,
};

verus! {

/// A crumb stream with a read position.
pub struct BifurcationStream<'a> {
    pub crumbs: &'a [bool],
    pub cursor: usize,
}

impl<'a> BifurcationStream<'a> {
    pub fn new(crumbs: &'a [bool]) -> (stream: Self)
        ensures
            stream.crumbs@ == crumbs@,
            stream.cursor == 0,
    {
        BifurcationStream { crumbs, cursor: 0 }
    }

    /// Takes the next crumb.
    pub fn read_bit(&mut self) -> (r: Result<bool, String>)
        ensures
            final(self).crumbs == old(self).crumbs,
            match r {
                Ok(bit) => old(self).cursor < old(self).crumbs@.len() && bit
                    == old(self).crumbs@[old(self).cursor as int] && final(self).cursor == old(
                    self,
                ).cursor + 1,
                Err(e) => old(self).cursor >= old(self).crumbs@.len() && final(self).cursor == old(
                    self,
                ).cursor && e@ == "bifurcation stream exhausted"@,
            },
    {
        if self.cursor >= self.crumbs.len() {
            return Err("bifurcation stream exhausted".to_string());
        }
        let bit: bool = self.crumbs[self.cursor];
        self.cursor = self.cursor + 1;
        Ok(bit)
    }
}

/// Whether the word at `index` takes a crumb.
pub open spec fn bifurcates(index: usize, mask: u8) -> bool {
    index & (mask as usize) == mask as usize
}

fn is_bifurcation_point(word_index: usize, mask: u8) -> (b: bool)
    ensures
        b == bifurcates(word_index, mask),
{
    (word_index & (mask as usize)) == (mask as usize)
}

/// A word on its way in: mixed with the parity and rotated.
pub open spec fn enter(word: u64, b: GenerativeBlueprint) -> u64 {
    rotl(word ^ (b.hadamard_parity as u64), b.channel_m0 as int)
}

/// A word through the whole operator, reflected or not.
pub open spec fn pass(word: u64, b: GenerativeBlueprint, reflect: bool) -> u64 {
    (if reflect {
        !enter(word, b)
    } else {
        enter(word, b)
    }) ^ rotr(b.hadamard_parity as u64, b.channel_m1 as int)
}

/// The state of a run: the words, the read position, and whether the crumbs
/// have sufficed.
#[verifier::ext_equal]
pub struct StreamRun {
    pub words: Seq<u64>,
    pub cursor: nat,
    pub complete: bool,
}

/// The operator on the words from `at` on. It stops inside the first word that
/// finds no crumb.
pub open spec fn stream_run(
    words: Seq<u64>,
    b: GenerativeBlueprint,
    crumbs: Seq<bool>,
    cursor: nat,
    at: nat,
) -> StreamRun
    decreases words.len() - at,
{
    if at >= words.len() {
        StreamRun { words, cursor, complete: true }
    } else if !bifurcates(at as usize, b.clean_mask) {
        let next = words.update(at as int, pass(words[at as int], b, false));
        stream_run(next, b, crumbs, cursor, at + 1)
    } else if cursor >= crumbs.len() {
        StreamRun {
            words: words.update(at as int, enter(words[at as int], b)),
            cursor,
            complete: false,
        }
    } else {
        let next = words.update(at as int, pass(words[at as int], b, crumbs[cursor as int]));
        stream_run(next, b, crumbs, cursor + 1, at + 1)
    }
}

/// Applies the operator to every word in place, taking a crumb at each
/// bifurcation point.
pub fn apply_u_k_with_stream(
    words: &mut Vec<u64>,
    blueprint: &GenerativeBlueprint,
    stream: &mut BifurcationStream,
) -> (r: Result<(), String>)
    ensures
        final(stream).crumbs == old(stream).crumbs,
        blueprint.hadamard_log_n == 0 ==> final(words)@ == old(words)@ && final(stream).cursor
            == old(stream).cursor && (r matches Err(e) && e@ == "invalid blueprint hardware bounds"@),
        blueprint.hadamard_log_n != 0 ==> {
            let run = stream_run(
                old(words)@,
                *blueprint,
                old(stream).crumbs@,
                old(stream).cursor as nat,
                0,
            );
            &&& final(words)@ == run.words
            &&& final(stream).cursor == run.cursor
            &&& match r {
                Ok(_) => run.complete,
                Err(e) => !run.complete && e@ == "bifurcation stream exhausted"@,
            }
        },
{
    if blueprint.hadamard_log_n == 0 {
        return Err("invalid blueprint hardware bounds".to_string());
    }
    let mask: u8 = blueprint.clean_mask;
    let parity: u64 = blueprint.hadamard_parity as u64;
    let n: usize = words.len();
    let ghost crumbs = stream.crumbs@;
    let ghost want = stream_run(words@, *blueprint, crumbs, stream.cursor as nat, 0);
    for idx in 0..n
        invariant
            n == words@.len(),
            mask == blueprint.clean_mask,
            parity == blueprint.hadamard_parity as u64,
            blueprint.hadamard_log_n != 0,
            stream.crumbs == old(stream).crumbs,
            crumbs == stream.crumbs@,
            want == stream_run(
                old(words)@,
                *blueprint,
                old(stream).crumbs@,
                old(stream).cursor as nat,
                0,
            ),
            want == stream_run(words@, *blueprint, crumbs, stream.cursor as nat, idx as nat),
    {
        let ghost before = words@;
        let mut word: u64 = words[idx] ^ parity;
        word = rotate_left(word, blueprint.channel_m0 as u32);
        if is_bifurcation_point(idx, mask) {
            match stream.read_bit() {
                Ok(reflect) => {
                    if reflect {
                        word = !word;
                    }
                },
                Err(e) => {
                    words.set(idx, word);
                    return Err(e);
                },
            }
        }
        word = word ^ rotate_right(parity, blueprint.channel_m1 as u32);
        words.set(idx, word);
    }
    Ok(())
}

/// A word can be told from what the operator made of it.
proof fn lemma_pass_injective(x: u64, y: u64, b: GenerativeBlueprint, reflect: bool)
    requires
        pass(x, b, reflect) == pass(y, b, reflect),
    ensures
        x == y,
{
    let p = b.hadamard_parity as u64;
    let q = rotr(p, b.channel_m1 as int);
    let (u, v) = (enter(x, b), enter(y, b));
    lemma_xor(u, q);
    lemma_xor(v, q);
    lemma_xor(!u, q);
    lemma_xor(!v, q);
    assert(!u == !v ==> u == v) by (bit_vector);
    lemma_rotations_invert(x ^ p, b.channel_m0 as int);
    lemma_rotations_invert(y ^ p, b.channel_m0 as int);
    lemma_xor(x, p);
    lemma_xor(y, p);
}

/// The operator is reversible: words that it maps to the same words under the
/// same crumbs are the same.
pub proof fn law_stream_operator_is_reversible(
    left: Seq<u64>,
    right: Seq<u64>,
    b: GenerativeBlueprint,
    crumbs: Seq<bool>,
    cursor: nat,
)
    requires
        left.len() == right.len() <= usize::MAX,
        stream_run(left, b, crumbs, cursor, 0).complete,
        stream_run(left, b, crumbs, cursor, 0) == stream_run(right, b, crumbs, cursor, 0),
    ensures
        left == right,
{
    lemma_stream_reversible(left, right, b, crumbs, cursor, 0);
    assert(left =~= right);
}

proof fn lemma_stream_prefix(
    words: Seq<u64>,
    b: GenerativeBlueprint,
    crumbs: Seq<bool>,
    cursor: nat,
    at: nat,
)
    ensures
        stream_run(words, b, crumbs, cursor, at).words.len() == words.len(),
        forall|k: int|
            0 <= k < at && k < words.len() ==> #[trigger] stream_run(
                words,
                b,
                crumbs,
                cursor,
                at,
            ).words[k] == words[k],
    decreases words.len() - at,
{
    if at >= words.len() {
    } else if !bifurcates(at as usize, b.clean_mask) {
        let next = words.update(at as int, pass(words[at as int], b, false));
        lemma_stream_prefix(next, b, crumbs, cursor, at + 1);
        assert forall|k: int| 0 <= k < at implies #[trigger] stream_run(
            words,
            b,
            crumbs,
            cursor,
            at,
        ).words[k] == words[k] by {
            assert(stream_run(next, b, crumbs, cursor, at + 1).words[k] == next[k]);
        }
    } else if cursor >= crumbs.len() {
    } else {
        let next = words.update(at as int, pass(words[at as int], b, crumbs[cursor as int]));
        lemma_stream_prefix(next, b, crumbs, cursor + 1, at + 1);
        assert forall|k: int| 0 <= k < at implies #[trigger] stream_run(
            words,
            b,
            crumbs,
            cursor,
            at,
        ).words[k] == words[k] by {
            assert(stream_run(next, b, crumbs, cursor + 1, at + 1).words[k] == next[k]);
        }
    }
}

proof fn lemma_stream_reversible(
    left: Seq<u64>,
    right: Seq<u64>,
    b: GenerativeBlueprint,
    crumbs: Seq<bool>,
    cursor: nat,
    at: nat,
)
    requires
        left.len() == right.len() <= usize::MAX,
        stream_run(left, b, crumbs, cursor, at).complete,
        stream_run(left, b, crumbs, cursor, at) == stream_run(right, b, crumbs, cursor, at),
    ensures
        forall|k: int| at <= k < left.len() ==> left[k] == right[k],
    decreases left.len() - at,
{
    if at < left.len() {
        let i = at as int;
        let forked = bifurcates(at as usize, b.clean_mask);
        if !(forked && cursor >= crumbs.len()) {
            let reflect = forked && crumbs[cursor as int];
            let next = if forked {
                cursor + 1
            } else {
                cursor
            };
            let l = left.update(i, pass(left[i], b, reflect));
            let r = right.update(i, pass(right[i], b, reflect));
            lemma_stream_reversible(l, r, b, crumbs, next, at + 1);
            lemma_stream_prefix(l, b, crumbs, next, at + 1);
            lemma_stream_prefix(r, b, crumbs, next, at + 1);
            assert(stream_run(l, b, crumbs, next, at + 1).words[i] == l[i]);
            assert(stream_run(r, b, crumbs, next, at + 1).words[i] == r[i]);
            lemma_pass_injective(left[i], right[i], b, reflect);
            assert forall|k: int| at <= k < left.len() implies left[k] == right[k] by {
                if k > i {
                    assert(l[k] == r[k]);
                }
            }
        }
    }
}

/// How often a bit position is set among words.
pub open spec fn set_count(words: Seq<u64>, bit: int) -> nat
    decreases words.len(),
{
    if words.len() == 0 {
        0
    } else {
        set_count(words.drop_last(), bit) + if (words.last() >> (bit as u64)) & 1u64 == 1 {
            1nat
        } else {
            0
        }
    }
}

/// How far a bit position is from being balanced among words.
pub open spec fn bit_bias(words: Seq<u64>, bit: int) -> nat {
    let ones = set_count(words, bit) as int;
    let zeros = words.len() - ones;
    (if ones >= zeros {
        ones - zeros
    } else {
        zeros - ones
    }) as nat
}

/// A bit position with the value it mostly has.
#[derive(Clone, Copy, Debug, Eq, PartialEq)]
pub struct BinaryWordPeak {
    pub bit: u8,
    pub positive: bool,
    pub bias: u64,
}

/// The biases of the 64 bit positions.
pub open spec fn bit_biases(words: Seq<u64>) -> Seq<u64> {
    Seq::new(64, |bit: int| bit_bias(words, bit) as u64)
}

/// The bit positions, most biased first, lower positions first among equals.
pub open spec fn binary_peaks(words: Seq<u64>) -> Seq<BinaryWordPeak> {
    let order = ranked(bit_biases(words));
    Seq::new(
        order.len(),
        |p: int|
            BinaryWordPeak {
                bit: order[p] as u8,
                positive: 2 * set_count(words, order[p]) >= words.len(),
                bias: bit_bias(words, order[p]) as u64,
            },
    )
}

/// What asking for the `count` most biased bit positions gives.
pub open spec fn top_binary_peaks(words: Seq<u64>, count: nat) -> Result<
    Seq<BinaryWordPeak>,
    Seq<char>,
> {
    if words.len() == 0 {
        Err("binary word analysis requires at least one word"@)
    } else {
        let all = binary_peaks(words);
        Ok(
            all.take(
                if count < all.len() {
                    count as int
                } else {
                    all.len() as int
                },
            ),
        )
    }
}

pub(crate) fn count_set(words: &[u64], bit: u64) -> (count: usize)
    requires
        bit < 64,
    ensures
        count == set_count(words@, bit as int),
        count <= words@.len(),
{
    let mut count: usize = 0;
    let n: usize = words.len();
    for i in 0..n
        invariant
            n == words@.len(),
            bit < 64,
            count == set_count(words@.take(i as int), bit as int),
            count <= i,
    {
        assert(words@.take(i + 1).drop_last() =~= words@.take(i as int));
        if (words[i] >> bit) & 1 == 1 {
            count = count + 1;
        }
    }
    assert(words@.take(n as int) =~= words@);
    count
}

/// Finds the most biased bit positions of a list of words.
pub fn strongest_binary_word_peaks(words: &[u64], count: usize) -> (r: Result<
    Vec<BinaryWordPeak>,
    String,
>)
    ensures
        outcome(r) == top_binary_peaks(words@, count as nat),
{
    let n: usize = words.len();
    if n == 0 {
        return Err("binary word analysis requires at least one word".to_string());
    }
    let mut counts: Vec<usize> = Vec::new();
    let mut biases: Vec<u64> = Vec::new();
    for bit in 0..64u64
        invariant
            n == words@.len(),
            counts@.len() == bit,
            biases@ =~= bit_biases(words@).take(bit as int),
            forall|k: int| 0 <= k < bit ==> #[trigger] counts@[k] == set_count(words@, k),
            forall|k: int| 0 <= k < bit ==> #[trigger] counts@[k] <= n,
    {
        let ones: usize = count_set(words, bit);
        let zeros: usize = n - ones;
        counts.push(ones);
        biases.push(
            (if ones >= zeros {
                ones - zeros
            } else {
                zeros - ones
            }) as u64,
        );
    }
    assert(biases@ =~= bit_biases(words@));
    let order = rank(&biases);
    let take: usize = if count < 64 {
        count
    } else {
        64
    };
    let mut peaks: Vec<BinaryWordPeak> = Vec::new();
    let ghost all = binary_peaks(words@);
    for p in 0..take
        invariant
            n == words@.len(),
            take <= 64,
            counts@.len() == 64,
            biases@ == bit_biases(words@),
            order@.len() == 64,
            ranked(biases@).len() == 64,
            all == binary_peaks(words@),
            forall|k: int| 0 <= k < 64 ==> #[trigger] counts@[k] == set_count(words@, k),
            forall|k: int| 0 <= k < 64 ==> #[trigger] counts@[k] <= n,
            forall|k: int| 0 <= k < 64 ==> #[trigger] order@[k] == ranked(biases@)[k],
            forall|k: int| 0 <= k < 64 ==> #[trigger] order@[k] < 64,
            peaks@ =~= all.take(p as int),
    {
        let bit: usize = order[p];
        let ones: usize = counts[bit];
        assert(biases@[bit as int] == bit_bias(words@, bit as int) as u64);
        peaks.push(BinaryWordPeak { bit: bit as u8, positive: ones >= n - ones, bias: biases[bit] });
    }
    Ok(peaks)
}

/// Adds every upper half to the lower half of its group, over GF(2).
pub open spec fn cross(x: u64, high: u64, width: u64) -> u64 {
    x ^ ((x & high) >> width)
}

/// The binary butterfly: all groups from pairs of bits to pairs of half words.
pub open spec fn butterfly(x: u64) -> u64 {
    let a = cross(x, 0xAAAA_AAAA_AAAA_AAAA, 1);
    let b = cross(a, 0xCCCC_CCCC_CCCC_CCCC, 2);
    let c = cross(b, 0xF0F0_F0F0_F0F0_F0F0, 4);
    let d = cross(c, 0xFF00_FF00_FF00_FF00, 8);
    let e = cross(d, 0xFFFF_0000_FFFF_0000, 16);
    cross(e, 0xFFFF_FFFF_0000_0000, 32)
}

/// The butterfly taken back.
pub open spec fn unbutterfly(x: u64) -> u64 {
    let e = cross(x, 0xFFFF_FFFF_0000_0000, 32);
    let d = cross(e, 0xFFFF_0000_FFFF_0000, 16);
    let c = cross(d, 0xFF00_FF00_FF00_FF00, 8);
    let b = cross(c, 0xF0F0_F0F0_F0F0_F0F0, 4);
    let a = cross(b, 0xCCCC_CCCC_CCCC_CCCC, 2);
    cross(a, 0xAAAA_AAAA_AAAA_AAAA, 1)
}

/// The key of the binary operator.
#[derive(Clone, Copy, Debug, Eq, PartialEq)]
pub struct BinaryOperatorKey {
    pub xor_mask: u64,
    pub rotate: u8,
    pub phase_mask: u64,
}

/// How an operator mixes indices.
#[derive(Clone, Copy, Debug, Eq, PartialEq)]
pub struct IndexMix {
    pub xor_mask: u64,
    pub rotate: u8,
}

/// How an operator turns phases.
#[derive(Clone, Copy, Debug, Eq, PartialEq)]
pub struct PhaseKey {
    pub seed: u64,
    pub mask: u64,
    pub shift_left: u8,
    pub shift_right: u8,
    pub odd_multiplier: u64,
}

/// A word operator, ready to run.
#[derive(Clone, Copy, Debug, Eq, PartialEq)]
pub struct SpectralOperatorKey {
    pub mix: IndexMix,
    pub phase: PhaseKey,
}

/// The binary operator: mix, butterfly, phase, and the way back.
pub open spec fn binary_u_k(value: u64, key: BinaryOperatorKey) -> u64 {
    let mixed = rotl(value ^ key.xor_mask, key.rotate as int);
    rotr(unbutterfly(butterfly(mixed) ^ key.phase_mask), key.rotate as int) ^ key.xor_mask
}

fn cross_words(x: u64, high: u64, width: u64) -> (y: u64)
    requires
        width < 64,
    ensures
        y == cross(x, high, width),
{
    x ^ ((x & high) >> width)
}

/// Applies the binary operator to a word.
pub fn apply_binary_u_k(value: u64, key: BinaryOperatorKey) -> (out: u64)
    ensures
        out == binary_u_k(value, key),
{
    let mixed: u64 = rotate_left(value ^ key.xor_mask, key.rotate as u32);
    let a: u64 = cross_words(mixed, 0xAAAA_AAAA_AAAA_AAAA, 1);
    let b: u64 = cross_words(a, 0xCCCC_CCCC_CCCC_CCCC, 2);
    let c: u64 = cross_words(b, 0xF0F0_F0F0_F0F0_F0F0, 4);
    let d: u64 = cross_words(c, 0xFF00_FF00_FF00_FF00, 8);
    let e: u64 = cross_words(d, 0xFFFF_0000_FFFF_0000, 16);
    let f: u64 = cross_words(e, 0xFFFF_FFFF_0000_0000, 32) ^ key.phase_mask;
    let g: u64 = cross_words(f, 0xFFFF_FFFF_0000_0000, 32);
    let h: u64 = cross_words(g, 0xFFFF_0000_FFFF_0000, 16);
    let i: u64 = cross_words(h, 0xFF00_FF00_FF00_FF00, 8);
    let j: u64 = cross_words(i, 0xF0F0_F0F0_F0F0_F0F0, 4);
    let k: u64 = cross_words(j, 0xCCCC_CCCC_CCCC_CCCC, 2);
    let l: u64 = cross_words(k, 0xAAAA_AAAA_AAAA_AAAA, 1);
    rotate_right(l, key.rotate as u32) ^ key.xor_mask
}

proof fn lemma_cross_involution(x: u64, high: u64, width: u64)
    requires
        (high >> width) & high == 0,
    ensures
        cross(cross(x, high, width), high, width) == x,
{
    let y = cross(x, high, width);
    assert(y ^ ((y & high) >> width) == x) by (bit_vector)
        requires
            (high >> width) & high == 0,
            y == x ^ ((x & high) >> width),
    ;
}

proof fn lemma_crossings()
    ensures
        forall|x: u64|
            #[trigger] cross(cross(x, 0xAAAA_AAAA_AAAA_AAAA, 1), 0xAAAA_AAAA_AAAA_AAAA, 1) == x,
        forall|x: u64|
            #[trigger] cross(cross(x, 0xCCCC_CCCC_CCCC_CCCC, 2), 0xCCCC_CCCC_CCCC_CCCC, 2) == x,
        forall|x: u64|
            #[trigger] cross(cross(x, 0xF0F0_F0F0_F0F0_F0F0, 4), 0xF0F0_F0F0_F0F0_F0F0, 4) == x,
        forall|x: u64|
            #[trigger] cross(cross(x, 0xFF00_FF00_FF00_FF00, 8), 0xFF00_FF00_FF00_FF00, 8) == x,
        forall|x: u64|
            #[trigger] cross(cross(x, 0xFFFF_0000_FFFF_0000, 16), 0xFFFF_0000_FFFF_0000, 16) == x,
        forall|x: u64|
            #[trigger] cross(cross(x, 0xFFFF_FFFF_0000_0000, 32), 0xFFFF_FFFF_0000_0000, 32) == x,
{
    assert((0xAAAA_AAAA_AAAA_AAAAu64 >> 1) & 0xAAAA_AAAA_AAAA_AAAAu64 == 0 && (
    0xCCCC_CCCC_CCCC_CCCCu64 >> 2) & 0xCCCC_CCCC_CCCC_CCCCu64 == 0 && (0xF0F0_F0F0_F0F0_F0F0u64
        >> 4) & 0xF0F0_F0F0_F0F0_F0F0u64 == 0 && (0xFF00_FF00_FF00_FF00u64 >> 8)
        & 0xFF00_FF00_FF00_FF00u64 == 0 && (0xFFFF_0000_FFFF_0000u64 >> 16)
        & 0xFFFF_0000_FFFF_0000u64 == 0 && (0xFFFF_FFFF_0000_0000u64 >> 32)
        & 0xFFFF_FFFF_0000_0000u64 == 0) by (bit_vector);
    assert forall|x: u64|
        #[trigger] cross(cross(x, 0xAAAA_AAAA_AAAA_AAAA, 1), 0xAAAA_AAAA_AAAA_AAAA, 1) == x by {
        lemma_cross_involution(x, 0xAAAA_AAAA_AAAA_AAAA, 1);
    }
    assert forall|x: u64|
        #[trigger] cross(cross(x, 0xCCCC_CCCC_CCCC_CCCC, 2), 0xCCCC_CCCC_CCCC_CCCC, 2) == x by {
        lemma_cross_involution(x, 0xCCCC_CCCC_CCCC_CCCC, 2);
    }
    assert forall|x: u64|
        #[trigger] cross(cross(x, 0xF0F0_F0F0_F0F0_F0F0, 4), 0xF0F0_F0F0_F0F0_F0F0, 4) == x by {
        lemma_cross_involution(x, 0xF0F0_F0F0_F0F0_F0F0, 4);
    }
    assert forall|x: u64|
        #[trigger] cross(cross(x, 0xFF00_FF00_FF00_FF00, 8), 0xFF00_FF00_FF00_FF00, 8) == x by {
        lemma_cross_involution(x, 0xFF00_FF00_FF00_FF00, 8);
    }
    assert forall|x: u64|
        #[trigger] cross(cross(x, 0xFFFF_0000_FFFF_0000, 16), 0xFFFF_0000_FFFF_0000, 16) == x by {
        lemma_cross_involution(x, 0xFFFF_0000_FFFF_0000, 16);
    }
    assert forall|x: u64|
        #[trigger] cross(cross(x, 0xFFFF_FFFF_0000_0000, 32), 0xFFFF_FFFF_0000_0000, 32) == x by {
        lemma_cross_involution(x, 0xFFFF_FFFF_0000_0000, 32);
    }
}

/// The binary operator is an involution: applied twice, it changes nothing.
pub proof fn law_binary_u_k_is_an_involution(value: u64, key: BinaryOperatorKey)
    ensures
        binary_u_k(binary_u_k(value, key), key) == value,
{
    let (m, p, r) = (key.xor_mask, key.phase_mask, key.rotate as int);
    let mixed = rotl(value ^ m, r);
    let s = butterfly(mixed);
    let back = unbutterfly(s ^ p);
    let out = rotr(back, r) ^ m;
    let turned = rotr(back, r);
    lemma_xor(turned, m);
    lemma_rotations_invert(back, r);
    lemma_crossings();
    assert(butterfly(back) == s ^ p);
    lemma_xor(s, p);
    assert(unbutterfly(s) == mixed);
    lemma_rotations_invert(value ^ m, r);
    lemma_xor(value, m);
}

proof fn lemma_cross_linear(x: u64, y: u64, high: u64, width: u64)
    ensures
        cross(x ^ y, high, width) == cross(x, high, width) ^ cross(y, high, width),
{
    assert((x ^ y) ^ (((x ^ y) & high) >> width) == (x ^ ((x & high) >> width)) ^ (y ^ ((y & high)
        >> width))) by (bit_vector);
}

proof fn lemma_unbutterfly_linear(x: u64, y: u64)
    ensures
        unbutterfly(x ^ y) == unbutterfly(x) ^ unbutterfly(y),
{
    let (e, f) = (cross(x, 0xFFFF_FFFF_0000_0000, 32), cross(y, 0xFFFF_FFFF_0000_0000, 32));
    let (g, h) = (cross(e, 0xFFFF_0000_FFFF_0000, 16), cross(f, 0xFFFF_0000_FFFF_0000, 16));
    let (i, j) = (cross(g, 0xFF00_FF00_FF00_FF00, 8), cross(h, 0xFF00_FF00_FF00_FF00, 8));
    let (k, l) = (cross(i, 0xF0F0_F0F0_F0F0_F0F0, 4), cross(j, 0xF0F0_F0F0_F0F0_F0F0, 4));
    let (m, n) = (cross(k, 0xCCCC_CCCC_CCCC_CCCC, 2), cross(l, 0xCCCC_CCCC_CCCC_CCCC, 2));
    lemma_cross_linear(x, y, 0xFFFF_FFFF_0000_0000, 32);
    lemma_cross_linear(e, f, 0xFFFF_0000_FFFF_0000, 16);
    lemma_cross_linear(g, h, 0xFF00_FF00_FF00_FF00, 8);
    lemma_cross_linear(i, j, 0xF0F0_F0F0_F0F0_F0F0, 4);
    lemma_cross_linear(k, l, 0xCCCC_CCCC_CCCC_CCCC, 2);
    lemma_cross_linear(m, n, 0xAAAA_AAAA_AAAA_AAAA, 1);
}

/// The binary operator adds, bit by bit, the same word to every word, and that
/// word is zero only where no phase is turned. So it changes every word, or
/// none.
pub proof fn law_binary_u_k_adds_a_word(left: u64, right: u64, key: BinaryOperatorKey)
    ensures
        binary_u_k(left, key) ^ left == binary_u_k(right, key) ^ right,
        binary_u_k(left, key) == left <==> key.phase_mask == 0,
{
    let p = key.phase_mask;
    let r = key.rotate as int;
    let u = unbutterfly(p);
    let shift = rotr(u, r);
    lemma_binary_shift(left, key);
    lemma_binary_shift(right, key);
    lemma_xor(shift, left);
    lemma_xor(left, shift);
    lemma_xor(shift, right);
    lemma_xor(right, shift);
    lemma_xor(left, left);
    lemma_xor(0, 0);
    let z = unbutterfly(0);
    lemma_unbutterfly_linear(0, 0);
    lemma_xor(z, z);
    lemma_rotation_linear(0, 0, r);
    lemma_xor(rotl(0, r), 0);
    lemma_xor(rotr(0, r), 0);
    lemma_rotations_invert(u, r);
    lemma_crossings();
    assert(butterfly(unbutterfly(p)) == p);
    assert(butterfly(unbutterfly(0)) == 0);
}

proof fn lemma_binary_shift(value: u64, key: BinaryOperatorKey)
    ensures
        binary_u_k(value, key) == value ^ rotr(unbutterfly(key.phase_mask), key.rotate as int),
{
    let (m, p, r) = (key.xor_mask, key.phase_mask, key.rotate as int);
    let mixed = rotl(value ^ m, r);
    let shift = rotr(unbutterfly(p), r);
    lemma_crossings();
    assert(unbutterfly(butterfly(mixed)) == mixed);
    lemma_unbutterfly_linear(butterfly(mixed), p);
    lemma_rotation_linear(mixed, unbutterfly(p), r);
    lemma_rotations_invert(value ^ m, r);
    assert(binary_u_k(value, key) == ((value ^ m) ^ shift) ^ m);
    lemma_xor_regroup(value, m, shift, 0);
    lemma_xor(shift, m);
    lemma_xor(m, m);
    lemma_xor(value ^ shift, m);
}

/// Two words that pass the operator differ afterwards as they did before, only
/// rotated; a crumb turns all bits around.
pub proof fn law_pass_rotates_differences(
    left: u64,
    right: u64,
    b: GenerativeBlueprint,
    reflect: bool,
)
    ensures
        pass(left, b, reflect) ^ pass(right, b, reflect) == rotl(left ^ right, b.channel_m0 as int),
        pass(left, b, true) == !pass(left, b, false),
        pass(b.hadamard_parity as u64, b, false) == rotr(
            b.hadamard_parity as u64,
            b.channel_m1 as int,
        ),
{
    let p = b.hadamard_parity as u64;
    let q = rotr(p, b.channel_m1 as int);
    let (u, v) = (enter(left, b), enter(right, b));
    let r = b.channel_m0 as int;
    lemma_rotation_linear(left ^ p, right ^ p, r);
    lemma_rotation_linear(p, p, r);
    let y = rotl(p, r);
    assert((left ^ p) ^ (right ^ p) == left ^ right && (u ^ q) ^ (v ^ q) == u ^ v && ((!u) ^ q) ^ ((
    !v) ^ q) == u ^ v && (!u) ^ q == !(u ^ q) && p ^ p == 0 && y ^ y == 0 && 0 ^ q == q)
        by (bit_vector);
}

/// The bit positions are listed by falling bias: how many more words have the
/// bit than not, or the other way round. Among equals the lower position comes
/// first; every position is listed once, with the value that it mostly has.
pub proof fn law_binary_peaks(words: Seq<u64>)
    requires
        words.len() <= u64::MAX,
    ensures
        binary_peaks(words).len() == 64,
        forall|p: int|
            0 <= p < 64 ==> {
                let peak = #[trigger] binary_peaks(words)[p];
                let set = set_count(words, peak.bit as int);
                &&& peak.bit < 64
                &&& peak.positive ==> peak.bias == 2 * set - words.len()
                &&& !peak.positive ==> peak.bias == words.len() - 2 * set && peak.bias > 0
            },
        forall|p: int, q: int|
            0 <= p < q < 64 ==> {
                let (a, b) = (#[trigger] binary_peaks(words)[p], #[trigger] binary_peaks(words)[q]);
                a.bias > b.bias || (a.bias == b.bias && a.bit < b.bit)
            },
{
    let w = bit_biases(words);
    let order = ranked(w);
    crate::order::lemma_ranked(w);
    assert forall|p: int| 0 <= p < 64 implies 0 <= #[trigger] order[p] < 64 by {
        assert(order.contains(order[p]));
    }
    assert forall|p: int| 0 <= p < 64 implies {
        let peak = #[trigger] binary_peaks(words)[p];
        let set = set_count(words, peak.bit as int);
        &&& peak.bit < 64
        &&& peak.positive ==> peak.bias == 2 * set - words.len()
        &&& !peak.positive ==> peak.bias == words.len() - 2 * set && peak.bias > 0
    } by {
        lemma_set_count(words, order[p]);
    }
    assert forall|p: int, q: int| 0 <= p < q < 64 implies {
        let (a, b) = (#[trigger] binary_peaks(words)[p], #[trigger] binary_peaks(words)[q]);
        a.bias > b.bias || (a.bias == b.bias && a.bit < b.bit)
    } by {
        assert(crate::order::ranks_before(w, order[p], order[q]));
    }
}

proof fn lemma_set_count(words: Seq<u64>, bit: int)
    ensures
        set_count(words, bit) <= words.len(),
    decreases words.len(),
{
    if words.len() > 0 {
        lemma_set_count(words.drop_last(), bit);
    }
}

} // verus!
