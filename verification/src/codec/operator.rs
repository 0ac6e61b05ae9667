//! Blocks of words that go through a word operator before their trajectories.
use vstd::prelude::*;
use vstd::arithmetic::power2::is_pow2;
use crate::codec::palette::{
    best_score, better_score, grouped_trajectory_score, is_better_trajectory_score, TrajectoryScore,
    MAX_DECODER_STEPS,
};
use crate::codec::trajectory::{
    best_path, best_steps, law_best_path, lemma_best_steps, lemma_path_roundtrip, path_cost,
    path_pays, path_view, rebuild_path,
    rebuilt_words, slots_fit, unpack_path, unpacked_path, walk_fault, words_to_bytes,
};
use crate::kernel::compile::{
    blueprint_for, compile_topology_to_key, compiled_operator, quantize_ratio, quantized,
};
use crate::kernel::key::{
    blueprint_fits, blueprint_of, blueprint_word, key_word, MagicKey, MagicKeyKind,
    OperatorBlueprint,
};
use crate::kernel::operator::{
    apply_binary_u_k, binary_peaks, binary_u_k, strongest_binary_word_peaks, BinaryOperatorKey,
    BinaryWordPeak, IndexMix, PhaseKey, SpectralOperatorKey,
};
use crate::kernel::topology::{analyze_topology, signature, topology, Topology, TopologySignature};
use crate::model::{produced, BlockEncoding, BlockView, OperatorBlock, PathView};
use crate::order::{distinct, lists_ascending, sort_distinct};
use crate::text::outcome;
use crate::words::{
    is_power_of_two, le_bytes, rotate_left, rotate_right, rotl, rotr, to_words, word_bytes,
    words_of,
};

verus! {

/// A word of eight equal bytes.
pub open spec fn repeated(byte: u8) -> u64 {
    (byte * 0x0101_0101_0101_0101) as u64
}

fn repeat_byte(byte: u8) -> (word: u64)
    ensures
        word == repeated(byte),
{
    byte as u64 * 0x0101_0101_0101_0101
}

/// The mask of the phases.
pub open spec fn runtime_mask(b: OperatorBlueprint) -> u64 {
    let second = ((b.dominant_index + b.secondary_delta + 1) % 64) as u64;
    let third = ((b.dominant_index + b.tertiary_delta + b.primary_shift + 1) % 64) as u64;
    repeated(b.popcnt_density) ^ rotl(repeated(b.derivative_density), b.shift_match as int) ^ (1u64
        << second) ^ (1u64 << third)
}

/// The operator that a blueprint describes.
pub open spec fn runtime_of(b: OperatorBlueprint) -> SpectralOperatorKey {
    SpectralOperatorKey {
        mix: IndexMix {
            xor_mask: runtime_mask(b) ^ rotr(
                repeated(b.fingerprint_bias),
                b.primary_shift as int,
            ),
            rotate: ((b.primary_shift + b.secondary_delta + b.fingerprint_bias) % 63 + 1) as u8,
        },
        phase: PhaseKey {
            seed: (b.dominant_index as u64) | ((b.shift_match as u64) << 13) | ((
            b.derivative_density as u64) << 22) | ((b.popcnt_density as u64) << 30) | ((
            b.secondary_delta as u64) << 38) | ((b.tertiary_delta as u64) << 43) | ((
            b.fingerprint_bias as u64) << 48) | ((if b.dominant_positive {
                1u64
            } else {
                0u64
            }) << 53),
            mask: runtime_mask(b),
            shift_left: ((b.primary_shift + b.secondary_delta) % 31 + 1) as u8,
            shift_right: ((b.primary_shift + b.tertiary_delta + b.fingerprint_bias) % 31 + 1) as u8,
            odd_multiplier: (repeated(b.derivative_density) ^ rotl(
                repeated(b.popcnt_density),
                b.primary_shift as int,
            ) ^ ((b.fingerprint_bias as u64) << 56) ^ ((b.shift_match as u64) << 17)) | 1,
        },
    }
}

/// The operator that key bytes stand for.
pub open spec fn runtime_key(bytes: Seq<u8>) -> Result<SpectralOperatorKey, Seq<char>> {
    match key_word(bytes) {
        Err(e) => Err(e),
        Ok(raw) => match blueprint_of(raw) {
            Err(e) => Err(e),
            Ok(b) => Ok(runtime_of(b)),
        },
    }
}

/// Derives an operator from its blueprint.
fn derive_runtime(b: &OperatorBlueprint) -> (operator: SpectralOperatorKey)
    ensures
        operator == runtime_of(*b),
{
    let d: u64 = b.dominant_index as u64;
    let second: u64 = (d + b.secondary_delta as u64 + 1) % 64;
    let third: u64 = (d + b.tertiary_delta as u64 + b.primary_shift as u64 + 1) % 64;
    let positive: u64 = if b.dominant_positive {
        1
    } else {
        0
    };
    let seed: u64 = d | ((b.shift_match as u64) << 13) | ((b.derivative_density as u64) << 22) | ((
    b.popcnt_density as u64) << 30) | ((b.secondary_delta as u64) << 38) | ((b.tertiary_delta as u64)
        << 43) | ((b.fingerprint_bias as u64) << 48) | (positive << 53);
    let mask: u64 = repeat_byte(b.popcnt_density) ^ rotate_left(
        repeat_byte(b.derivative_density),
        b.shift_match as u32,
    ) ^ (1u64 << second) ^ (1u64 << third);
    let p: u16 = b.primary_shift as u16;
    let odd_multiplier: u64 = (repeat_byte(b.derivative_density) ^ rotate_left(
        repeat_byte(b.popcnt_density),
        b.primary_shift as u32,
    ) ^ ((b.fingerprint_bias as u64) << 56) ^ ((b.shift_match as u64) << 17)) | 1;
    SpectralOperatorKey {
        mix: IndexMix {
            xor_mask: mask ^ rotate_right(repeat_byte(b.fingerprint_bias), b.primary_shift as u32),
            rotate: ((p + b.secondary_delta as u16 + b.fingerprint_bias as u16) % 63 + 1) as u8,
        },
        phase: PhaseKey {
            seed,
            mask,
            shift_left: ((p + b.secondary_delta as u16) % 31 + 1) as u8,
            shift_right: ((p + b.tertiary_delta as u16 + b.fingerprint_bias as u16) % 31 + 1) as u8,
            odd_multiplier,
        },
    }
}

/// Reads an operator from its key bytes.
pub fn parse_operator_runtime_key(key_bytes: &[u8]) -> (r: Result<SpectralOperatorKey, String>)
    ensures
        match r {
            Ok(k) => runtime_key(key_bytes@) == Ok::<SpectralOperatorKey, Seq<char>>(k),
            Err(e) => runtime_key(key_bytes@) == Err::<SpectralOperatorKey, Seq<char>>(e@),
        },
{
    let key = match MagicKey::parse(key_bytes) {
        Ok(k) => k,
        Err(e) => return Err(e),
    };
    let key = match key.require_kind(MagicKeyKind::Operator) {
        Ok(k) => k,
        Err(e) => return Err(e),
    };
    match key.operator_blueprint() {
        Ok(b) => Ok(derive_runtime(&b)),
        Err(e) => Err(e),
    }
}

/// The binary key of an operator.
pub open spec fn binary_key(o: SpectralOperatorKey) -> BinaryOperatorKey {
    BinaryOperatorKey {
        xor_mask: o.mix.xor_mask,
        rotate: o.mix.rotate,
        phase_mask: o.phase.seed ^ rotl(o.phase.mask, 17) ^ rotr(o.phase.odd_multiplier, 11) ^ (
        o.phase.shift_left as u64) ^ ((o.phase.shift_right as u64) << 8),
    }
}

/// A word through an operator.
pub open spec fn operated(value: u64, o: SpectralOperatorKey) -> u64 {
    binary_u_k(value, binary_key(o))
}

/// Applies an operator to a word. The operator is its own inverse.
pub fn apply_operator_word_u_k_with_runtime(value: u64, operator: &SpectralOperatorKey) -> (out:
    u64)
    ensures
        out == operated(value, *operator),
{
    let phase_mask: u64 = operator.phase.seed ^ rotate_left(operator.phase.mask, 17) ^ rotate_right(
        operator.phase.odd_multiplier,
        11,
    ) ^ (operator.phase.shift_left as u64) ^ ((operator.phase.shift_right as u64) << 8);
    apply_binary_u_k(
        value,
        BinaryOperatorKey { xor_mask: operator.mix.xor_mask, rotate: operator.mix.rotate, phase_mask },
    )
}

/// Applies the operator that key bytes stand for.
pub fn apply_operator_word_u_k(value: u64, key_bytes: &[u8]) -> (r: Result<u64, String>)
    ensures
        match r {
            Ok(out) => runtime_key(key_bytes@) is Ok && out == operated(
                value,
                runtime_key(key_bytes@)->Ok_0,
            ),
            Err(e) => runtime_key(key_bytes@) == Err::<SpectralOperatorKey, Seq<char>>(e@),
        },
{
    match parse_operator_runtime_key(key_bytes) {
        Ok(operator) => Ok(apply_operator_word_u_k_with_runtime(value, &operator)),
        Err(e) => Err(e),
    }
}

/// An operator is an involution: applied twice, it changes nothing.
pub proof fn law_operator_is_an_involution(value: u64, o: SpectralOperatorKey)
    ensures
        operated(operated(value, o), o) == value,
{
    crate::kernel::operator::law_binary_u_k_is_an_involution(value, binary_key(o));
}

/// Words through an operator.
pub open spec fn operated_words(words: Seq<u64>, o: SpectralOperatorKey) -> Seq<u64> {
    words.map_values(|w: u64| operated(w, o))
}

fn transform_words(words: &[u64], operator: &SpectralOperatorKey) -> (out: Vec<u64>)
    ensures
        out@ == operated_words(words@, *operator),
{
    let mut out: Vec<u64> = Vec::new();
    let n: usize = words.len();
    for i in 0..n
        invariant
            n == words@.len(),
            out@ =~= operated_words(words@, *operator).take(i as int),
    {
        out.push(apply_operator_word_u_k_with_runtime(words[i], operator));
    }
    assert(operated_words(words@, *operator).take(n as int) =~= operated_words(words@, *operator));
    out
}

/// Makes the operator key that suits a block.
pub fn build_operator_codec_key(block: &[u8]) -> (r: Result<MagicKey, String>)
    requires
        8 * block@.len() <= i64::MAX,
    ensures
        match (outcome(r), topology(block@)) {
            (Ok(raw), Ok(t)) => compiled_operator(t) == Ok::<u64, Seq<char>>(raw),
            (Err(e), Ok(t)) => compiled_operator(t) == Err::<u64, Seq<char>>(e),
            (Ok(_), Err(_)) => false,
            (Err(e), Err(m)) => e == m,
        },
{
    match analyze_topology(block) {
        Ok(s) => compile_topology_to_key(&s),
        Err(e) => Err(e),
    }
}

/// The shift a pair of biased bits suggests, never below the measured one.
pub open spec fn suggested_shift(dominant: BinaryWordPeak, second: BinaryWordPeak, measured: u8) -> u8 {
    let delta = ((second.bit - dominant.bit) % 64) % 31;
    let capped = if measured < 31 {
        measured as int
    } else {
        31
    };
    (if delta < 1 && capped < 1 {
        1
    } else if delta < capped {
        capped
    } else {
        delta
    }) as u8
}

/// The distance from one bit to another, less one, in a ring of 32.
pub open spec fn bit_delta(from: u8, to: u8) -> u8 {
    ((to - from - 1) % 32) as u8
}

/// The blueprint built from the biased bits `d` and `s` of some words.
pub open spec fn variant(t: Topology, words: Seq<u64>, d: int, s: int) -> OperatorBlueprint {
    let peaks = binary_peaks(words);
    let base = blueprint_for(t);
    let shift = t.shift_scores[(d + s) % t.shift_scores.len() as int];
    OperatorBlueprint {
        dominant_index: peaks[d].bit as u16,
        dominant_positive: peaks[d].positive,
        primary_shift: suggested_shift(peaks[d], peaks[s], (shift.shift % 256) as u8),
        shift_match: (quantized(peaks[d].bias as nat, words.len(), 9) % 512) as u16,
        derivative_density: base.derivative_density,
        popcnt_density: base.popcnt_density,
        secondary_delta: bit_delta(peaks[d].bit, peaks[s].bit),
        tertiary_delta: bit_delta(peaks[d].bit, peaks[(s + 1) % 4].bit),
        fingerprint_bias: ((t.fingerprint >> ((5 * ((d + s) % 8)) as u64)) & 0x1F) as u8,
    }
}

/// The second bit of pair `i`, where the pairs of the four most biased bits
/// are counted off.
pub open spec fn partner(i: int) -> int {
    if i % 3 < i / 3 {
        i % 3
    } else {
        i % 3 + 1
    }
}

/// The keys of all pairs, and the key of the block's own topology.
pub open spec fn family_words(t: Topology, words: Seq<u64>) -> Seq<u64> {
    Seq::new(12, |i: int| blueprint_word(variant(t, words, i / 3, partner(i)))).push(
        blueprint_word(blueprint_for(t)),
    )
}

/// The operator keys that are tried on a block, ascending.
pub open spec fn family(t: Topology, words: Seq<u64>) -> Result<Seq<u64>, Seq<char>> {
    match compiled_operator(t) {
        Err(e) => Err(e),
        Ok(_) => if words.len() == 0 {
            Err("binary word analysis requires at least one word"@)
        } else {
            Ok(distinct(family_words(t, words)))
        },
    }
}

fn encoded_primary_shift(dominant: &BinaryWordPeak, secondary: &BinaryWordPeak, fallback_shift: u8) -> (
    shift: u8)
    requires
        dominant.bit < 64,
        secondary.bit < 64,
    ensures
        shift == suggested_shift(*dominant, *secondary, fallback_shift),
        1 <= shift <= 31,
{
    let delta: u8 = ((secondary.bit + 64 - dominant.bit) % 64) % 31;
    assert((secondary.bit + 64 - dominant.bit) % 64 == (secondary.bit - dominant.bit) % 64);
    let capped: u8 = if fallback_shift < 31 {
        fallback_shift
    } else {
        31
    };
    if delta < 1 && capped < 1 {
        1
    } else if delta < capped {
        capped
    } else {
        delta
    }
}

fn encode_operator_delta(from: u8, to: u8) -> (delta: u8)
    requires
        from < 64,
        to < 64,
    ensures
        delta == bit_delta(from, to),
        delta < 32,
{
    assert((to + 95 - from) % 32 == (to - from - 1) % 32);
    (to + 95 - from) % 32
}

/// The peaks of a family are bits of a word.
proof fn lemma_peak_bits(words: Seq<u64>)
    ensures
        binary_peaks(words).len() == 64,
        forall|p: int| 0 <= p < 64 ==> (#[trigger] binary_peaks(words)[p]).bit < 64,
{
    let w = crate::kernel::operator::bit_biases(words);
    crate::order::lemma_ranked(w);
    assert forall|p: int| 0 <= p < 64 implies (#[trigger] binary_peaks(words)[p]).bit < 64 by {
        assert(crate::order::ranked(w).contains(crate::order::ranked(w)[p]));
    }
}

proof fn lemma_variant_fits(t: Topology, words: Seq<u64>, d: int, s: int)
    requires
        0 <= d < 4,
        0 <= s < 4,
    ensures
        blueprint_fits(variant(t, words, d, s)),
{
    lemma_peak_bits(words);
    let k = ((t.fingerprint >> ((5 * ((d + s) % 8)) as u64)));
    assert(k & 0x1F < 32) by (bit_vector);
}

/// Builds the keys that are tried on a block.
pub fn operator_candidate_family(signature: &TopologySignature, words: &[u64]) -> (r: Result<
    Vec<MagicKey>,
    String,
>)
    ensures
        match r {
            Ok(keys) => family(signature@, words@) is Ok && keys@.len() == family(
                signature@,
                words@,
            )->Ok_0.len() && (forall|i: int|
                0 <= i < keys@.len() ==> (#[trigger] keys@[i])@ == family(signature@, words@)->Ok_0[i]
                    && keys@[i].purpose() == Some(MagicKeyKind::Operator)),
            Err(e) => family(signature@, words@) == Err::<Seq<u64>, Seq<char>>(e@),
        },
{
    let base = match compile_topology_to_key(signature) {
        Ok(k) => k,
        Err(e) => return Err(e),
    };
    let ghost t = signature@;
    proof {
        crate::kernel::compile::lemma_blueprint_fits(t);
        crate::kernel::key::law_blueprint_roundtrip(blueprint_for(t));
        lemma_peak_bits(words@);
    }
    let base_blueprint = match base.operator_blueprint() {
        Ok(b) => b,
        Err(e) => return Err(e),
    };
    let peaks = match strongest_binary_word_peaks(words, 4) {
        Ok(p) => p,
        Err(e) => return Err(e),
    };
    let mut keys: Vec<MagicKey> = Vec::new();
    let mut raws: Vec<u64> = Vec::new();
    let shifts: usize = signature.shift_scores.len();
    let ghost all = family_words(t, words@);
    for i in 0..12usize
        invariant
            t == signature@,
            all == family_words(t, words@),
            base_blueprint == blueprint_for(t),
            shifts == t.shift_scores.len(),
            shifts > 0,
            words@.len() > 0,
            peaks@.len() == 4,
            binary_peaks(words@).len() == 64,
            peaks@ == binary_peaks(words@).take(4),
            forall|p: int| 0 <= p < 64 ==> (#[trigger] binary_peaks(words@)[p]).bit < 64,
            raws@ =~= all.take(i as int),
            keys@.len() == i,
            forall|k: int|
                0 <= k < i ==> (#[trigger] keys@[k])@ == raws@[k] && keys@[k].purpose() == Some(
                    MagicKeyKind::Operator,
                ),
    {
        let d: usize = i / 3;
        let r: usize = i % 3;
        let s: usize = if r < d {
            r
        } else {
            r + 1
        };
        let dominant = peaks[d];
        let secondary = peaks[s];
        let tertiary = peaks[(s + 1) % 4];
        assert(dominant == binary_peaks(words@)[d as int]);
        assert(secondary == binary_peaks(words@)[s as int]);
        assert(tertiary == binary_peaks(words@)[(s + 1) % 4]);
        let shift: usize = signature.shift_scores[(d + s) % shifts].shift;
        let b = OperatorBlueprint {
            dominant_index: dominant.bit as u16,
            dominant_positive: dominant.positive,
            primary_shift: encoded_primary_shift(&dominant, &secondary, (shift % 256) as u8),
            shift_match: (quantize_ratio(dominant.bias as u128, words.len() as u128, 9) % 512) as u16,
            derivative_density: base_blueprint.derivative_density,
            popcnt_density: base_blueprint.popcnt_density,
            secondary_delta: encode_operator_delta(dominant.bit, secondary.bit),
            tertiary_delta: encode_operator_delta(dominant.bit, tertiary.bit),
            fingerprint_bias: ((signature.fingerprint >> ((5 * ((d + s) % 8)) as u64)) & 0x1F) as u8,
        };
        assert(b == variant(t, words@, d as int, s as int));
        proof {
            lemma_variant_fits(t, words@, d as int, s as int);
        }
        match MagicKey::from_operator_blueprint(&b) {
            Ok(key) => {
                raws.push(key.raw());
                keys.push(key);
            },
            Err(e) => return Err(e),
        }
    }
    raws.push(base.raw());
    keys.push(base);
    assert(raws@ =~= all);
    let sorted = sort_distinct(raws.as_slice());
    let mut out: Vec<MagicKey> = Vec::new();
    let n: usize = sorted.len();
    for i in 0..n
        invariant
            n == sorted@.len(),
            lists_ascending(sorted@, raws@),
            raws@.len() == 13,
            keys@.len() == 13,
            forall|k: int|
                0 <= k < 13 ==> (#[trigger] keys@[k])@ == raws@[k] && keys@[k].purpose() == Some(
                    MagicKeyKind::Operator,
                ),
            out@.len() == i,
            forall|k: int|
                0 <= k < i ==> (#[trigger] out@[k])@ == sorted@[k] && out@[k].purpose() == Some(
                    MagicKeyKind::Operator,
                ),
    {
        let raw: u64 = sorted[i];
        assert(sorted@.contains(raw));
        assert(raws@.contains(raw));
        let mut j: usize = 0;
        while keys[j].raw() != raw
            invariant
                j < 13,
                raws@.len() == 13,
                keys@.len() == 13,
                raws@.contains(raw),
                forall|k: int| 0 <= k < 13 ==> (#[trigger] keys@[k])@ == raws@[k],
                forall|k: int| 0 <= k < j ==> raws@[k] != raw,
            decreases 13 - j,
        {
            if j == 12 {
                proof {
                    assert(keys@[12]@ == raws@[12]);
                    let k = choose|k: int| 0 <= k < 13 && raws@[k] == raw;
                    assert(k == 12 || raws@[k] != raw);
                    assert(false);
                }
            }
            assert(keys@[j as int]@ == raws@[j as int]);
            j = j + 1;
        }
        out.push(keys[j]);
    }
    Ok(out)
}

/// The score of words under an operator key.
pub open spec fn key_score(words: Seq<u64>, raw: u64) -> Option<TrajectoryScore> {
    best_score(operated_words(words, runtime_of(blueprint_of(raw)->Ok_0)), 63)
}

/// Scores words under an operator key.
pub fn score_operator_key(words: &[u64], key: MagicKey) -> (r: Result<
    Option<TrajectoryScore>,
    String,
>)
    requires
        100 * words@.len() + 20000 <= u64::MAX,
    ensures
        match r {
            Ok(score) => blueprint_of(key@) is Ok && score == key_score(words@, key@),
            Err(e) => blueprint_of(key@) == Err::<OperatorBlueprint, Seq<char>>(e@),
        },
{
    let bytes = key.serialize();
    proof {
        crate::kernel::key::law_key_bytes_roundtrip(key@);
    }
    let operator = match parse_operator_runtime_key(bytes.as_slice()) {
        Ok(o) => o,
        Err(e) => return Err(e),
    };
    let transformed = transform_words(words, &operator);
    grouped_trajectory_score(transformed.as_slice())
}

/// Compares the scores of operator keys.
pub fn is_better_operator_score(
    candidate: Option<TrajectoryScore>,
    incumbent: Option<TrajectoryScore>,
) -> (r: bool)
    ensures
        r == better_score(candidate, incumbent),
{
    is_better_trajectory_score(candidate, incumbent)
}

/// The best of some keys, with its score.
pub struct KeyChoice {
    pub score: Option<TrajectoryScore>,
    pub key: Option<u64>,
}

/// The best of the first `n` keys, earlier keys first among equals.
pub open spec fn best_key(words: Seq<u64>, keys: Seq<u64>, n: nat) -> KeyChoice
    decreases n,
{
    if n == 0 {
        KeyChoice { score: None, key: None }
    } else {
        let best = best_key(words, keys, (n - 1) as nat);
        let score = key_score(words, keys[n - 1]);
        if better_score(score, best.score) {
            KeyChoice { score, key: Some(keys[n - 1]) }
        } else {
            best
        }
    }
}

/// The key chosen for words, if any makes their trajectories shorter.
pub open spec fn selected_key(t: Topology, words: Seq<u64>) -> Result<Option<u64>, Seq<char>> {
    match family(t, words) {
        Err(e) => Err(e),
        Ok(keys) => {
            let best = best_key(words, keys, keys.len());
            if better_score(best.score, best_score(words, 63)) {
                Ok(best.key)
            } else {
                Ok(None)
            }
        },
    }
}

/// Every key of a family can be read.
proof fn lemma_family_readable(t: Topology, words: Seq<u64>, i: int)
    requires
        family(t, words) is Ok,
        0 <= i < family(t, words)->Ok_0.len(),
    ensures
        blueprint_of(family(t, words)->Ok_0[i]) is Ok,
{
    let all = family_words(t, words);
    let keys = distinct(all);
    crate::order::lemma_distinct(all);
    assert(keys.contains(keys[i]));
    assert(all.contains(keys[i]));
    let k = choose|k: int| 0 <= k < all.len() && all[k] == keys[i];
    crate::kernel::compile::lemma_blueprint_fits(t);
    crate::kernel::key::law_blueprint_roundtrip(blueprint_for(t));
    if k < 12 {
        lemma_variant_fits(t, words, k / 3, partner(k));
        crate::kernel::key::law_blueprint_roundtrip(variant(t, words, k / 3, partner(k)));
    }
}

/// Chooses an operator key for the words of a block. A signature that is
/// passed in takes the place of the block's own analysis.
pub fn select_operator_codec_key_from_family(
    block: &[u8],
    words: &[u64],
    cached_topology: Option<&TopologySignature>,
) -> (r: Result<Option<MagicKey>, String>)
    requires
        8 * block@.len() <= i64::MAX,
        100 * words@.len() + 20000 <= u64::MAX,
    ensures
        ({
            let analysed = match cached_topology {
                Some(s) => Ok::<Topology, Seq<char>>(s@),
                None => topology(block@),
            };
            let want = match analysed {
                Ok(t) => selected_key(t, words@),
                Err(e) => Err(e),
            };
            match r {
                Ok(Some(key)) => want == Ok::<Option<u64>, Seq<char>>(Some(key@)) && blueprint_of(
                    key@,
                ) is Ok,
                Ok(None) => want == Ok::<Option<u64>, Seq<char>>(None),
                Err(e) => want == Err::<Option<u64>, Seq<char>>(e@),
            }
        }),
{
    match cached_topology {
        Some(s) => select_key(s, words),
        None => match analyze_topology(block) {
            Ok(s) => select_key(&s, words),
            Err(e) => Err(e),
        },
    }
}

fn select_key(signature: &TopologySignature, words: &[u64]) -> (r: Result<Option<MagicKey>, String>)
    requires
        100 * words@.len() + 20000 <= u64::MAX,
    ensures
        match r {
            Ok(Some(key)) => selected_key(signature@, words@) == Ok::<Option<u64>, Seq<char>>(
                Some(key@),
            ) && blueprint_of(key@) is Ok,
            Ok(None) => selected_key(signature@, words@) == Ok::<Option<u64>, Seq<char>>(None),
            Err(e) => selected_key(signature@, words@) == Err::<Option<u64>, Seq<char>>(e@),
        },
{
    let original = match grouped_trajectory_score(words) {
        Ok(s) => s,
        Err(e) => {
            assert(false);
            return Err(e);
        },
    };
    let candidates = match operator_candidate_family(signature, words) {
        Ok(c) => c,
        Err(e) => return Err(e),
    };
    let ghost keys = family(signature@, words@)->Ok_0;
    let mut score: Option<TrajectoryScore> = None;
    let mut chosen: Option<MagicKey> = None;
    let n: usize = candidates.len();
    for i in 0..n
        invariant
            100 * words@.len() + 20000 <= u64::MAX,
            n == candidates@.len() == keys.len(),
            family(signature@, words@) == Ok::<Seq<u64>, Seq<char>>(keys),
            forall|k: int| 0 <= k < n ==> (#[trigger] candidates@[k])@ == keys[k],
            score == best_key(words@, keys, i as nat).score,
            match (chosen, best_key(words@, keys, i as nat).key) {
                (Some(k), Some(raw)) => k@ == raw && blueprint_of(raw) is Ok,
                (None, None) => true,
                _ => false,
            },
            score is Some <==> chosen is Some,
    {
        let candidate = candidates[i];
        proof {
            lemma_family_readable(signature@, words@, i as int);
        }
        match score_operator_key(words, candidate) {
            Ok(s) => {
                if is_better_operator_score(s, score) {
                    score = s;
                    chosen = Some(candidate);
                }
            },
            Err(e) => {
                assert(false);
                return Err(e);
            },
        }
    }
    if is_better_trajectory_score(score, original) {
        Ok(chosen)
    } else {
        Ok(None)
    }
}

/// No key of the family scores better than the chosen one.
proof fn lemma_best_key(words: Seq<u64>, keys: Seq<u64>, n: nat, i: int)
    requires
        0 <= i < n <= keys.len(),
    ensures
        !better_score(key_score(words, keys[i]), best_key(words, keys, n).score),
    decreases n,
{
    if i < n - 1 {
        lemma_best_key(words, keys, (n - 1) as nat, i);
    }
}

proof fn lemma_best_key_score(words: Seq<u64>, keys: Seq<u64>, n: nat)
    requires
        n <= keys.len(),
    ensures
        match best_key(words, keys, n).key {
            Some(raw) => best_key(words, keys, n).score == key_score(words, raw) && keys.contains(
                raw,
            ),
            None => best_key(words, keys, n).score is None,
        },
    decreases n,
{
    if n > 0 {
        lemma_best_key_score(words, keys, (n - 1) as nat);
        assert(keys[n - 1] == keys[n - 1]);
    }
}

/// The chosen key makes the trajectories shorter, and no key of the family
/// does better; in particular not the key of the block's own topology.
pub proof fn law_selected_key_is_best(t: Topology, words: Seq<u64>, other: u64)
    requires
        selected_key(t, words) matches Ok(Some(_)),
        family(t, words)->Ok_0.contains(other) || compiled_operator(t) == Ok::<u64, Seq<char>>(
            other,
        ),
    ensures
        better_score(
            key_score(words, selected_key(t, words)->Ok_0->Some_0),
            best_score(words, 63),
        ),
        !better_score(
            key_score(words, other),
            key_score(words, selected_key(t, words)->Ok_0->Some_0),
        ),
{
    let keys = family(t, words)->Ok_0;
    let all = family_words(t, words);
    crate::order::lemma_distinct(all);
    assert(all[12] == blueprint_word(blueprint_for(t)));
    crate::kernel::compile::lemma_blueprint_fits(t);
    assert(keys.contains(other));
    let i = choose|i: int| 0 <= i < keys.len() && keys[i] == other;
    lemma_best_key(words, keys, keys.len(), i);
    lemma_best_key_score(words, keys, keys.len());
}

/// An operator block is tried on blocks of at least 64 bytes, a power of two.
pub open spec fn operator_applies(block: Seq<u8>) -> bool {
    block.len() >= 64 && is_pow2(block.len() as int)
}

/// The operator block of a block, if one pays.
pub open spec fn operator_block(block: Seq<u8>) -> Option<PathView> {
    if !operator_applies(block) {
        None
    } else {
        let words = words_of(block);
        match selected_key(signature(block), words) {
            Ok(Some(raw)) => {
                let transformed = operated_words(words, runtime_of(blueprint_of(raw)->Ok_0));
                match best_steps(transformed, 63) {
                    None => None,
                    Some(s) => Some(path_view(transformed, s, le_bytes(raw as nat, 8))),
                }
            },
            _ => None,
        }
    }
}

/// A power of two of at least 64 bytes can be analysed.
proof fn lemma_operator_applies(block: Seq<u8>)
    requires
        operator_applies(block),
    ensures
        topology(block) == Ok::<Topology, Seq<char>>(signature(block)),
        block.len() % 8 == 0,
{
    let n = block.len() as int;
    reveal(is_pow2);
    assert(is_pow2(2 * n));
    assert(is_pow2(4 * n));
    assert(is_pow2(8 * n));
    crate::codec::spectral::lemma_whole_words(block.len());
}

/// Encodes a block by an operator and parity trajectories. A signature that is
/// passed in must be the block's own.
pub fn try_encode_operator_block(block: &[u8], cached_topology: Option<&TopologySignature>) -> (r:
    Result<Option<BlockEncoding>, String>)
    requires
        cached_topology matches Some(s) ==> s@ == signature(block@),
        block@.len() <= u32::MAX,
    ensures
        produced(
            r,
            match operator_block(block@) {
                Some(b) => Some(BlockView::Operator(b)),
                None => None,
            },
        ),
{
    if block.len() < 64 || block.len() % 8 != 0 || !is_power_of_two(block.len()) {
        proof {
            if operator_applies(block@) {
                lemma_operator_applies(block@);
            }
        }
        return Ok(None);
    }
    proof {
        lemma_operator_applies(block@);
    }
    let words = to_words(block);
    let key = match select_operator_codec_key_from_family(
        block,
        words.as_slice(),
        cached_topology,
    ) {
        Ok(Some(k)) => k,
        Ok(None) => return Ok(None),
        Err(_) => return Ok(None),
    };
    let bytes = key.serialize();
    proof {
        crate::kernel::key::law_key_bytes_roundtrip(key@);
    }
    let operator = match parse_operator_runtime_key(bytes.as_slice()) {
        Ok(o) => o,
        Err(e) => return Err(e),
    };
    let transformed = transform_words(words.as_slice(), &operator);
    match best_path(transformed.as_slice()) {
        None => Ok(None),
        Some(parts) => {
            let key_bytes = vstd::slice::slice_to_vec(bytes.as_slice());
            assert(path_view(transformed@, parts.steps as nat, key_bytes@).key == key_bytes@);
            Ok(
                Some(
                    BlockEncoding::Operator(
                        OperatorBlock {
                            original_len: block.len() as u32,
                            key: key_bytes,
                            terminals: parts.terminals,
                            terminal_indices: parts.terminal_indices,
                            steps: parts.steps,
                            breadcrumbs: parts.breadcrumbs,
                        },
                    ),
                ),
            )
        },
    }
}

/// What decoding an operator block gives.
pub open spec fn decoded_operator(b: PathView) -> Result<Seq<u8>, Seq<char>> {
    if b.original_len % 8 != 0 {
        Err("operator block length must be divisible by 8"@)
    } else {
        match key_word(b.key) {
            Err(e) => Err(e),
            Ok(raw) => if !(1 <= b.steps < 64) {
                Err("operator parity step count must be in 1..64"@)
            } else {
                match walk_fault(
                    b,
                    "operator decoder step overflow"@,
                    "operator decoder gas limit exceeded"@,
                ) {
                    Some(e) => Err(e),
                    None => match unpacked_path(b) {
                        Err(e) => Err(e),
                        Ok((slots, crumbs)) => match blueprint_of(raw) {
                            Err(e) => Err(e),
                            Ok(blueprint) => if slots_fit(b.terminals, slots) {
                                Ok(
                                    word_bytes(
                                        operated_words(
                                            rebuilt_words(
                                                b.terminals,
                                                slots,
                                                crumbs,
                                                b.steps as int,
                                            ),
                                            runtime_of(blueprint),
                                        ),
                                    ),
                                )
                            } else {
                                Err("operator terminal index is out of range"@)
                            },
                        },
                    },
                }
            },
        }
    }
}

/// Decodes an operator block.
pub fn decode_operator_block(block: &OperatorBlock) -> (r: Result<Vec<u8>, String>)
    ensures
        outcome(r) == decoded_operator(block@),
{
    if block.original_len % 8 != 0 {
        return Err("operator block length must be divisible by 8".to_string());
    }
    let parsed = match MagicKey::parse(block.key.as_slice()) {
        Ok(k) => k,
        Err(e) => return Err(e),
    };
    match parsed.require_kind(MagicKeyKind::Operator) {
        Ok(_) => {},
        Err(e) => return Err(e),
    }
    let steps: u8 = block.steps;
    if steps < 1 || steps >= 64 {
        return Err("operator parity step count must be in 1..64".to_string());
    }
    let word_count: u64 = (block.original_len / 8) as u64;
    assert(0 <= word_count * steps <= 63 * word_count) by (nonlinear_arith)
        requires
            steps <= 63,
    ;
    let total: u64 = word_count * steps as u64;
    if total > usize::MAX as u64 {
        return Err("operator decoder step overflow".to_string());
    }
    if total > MAX_DECODER_STEPS as u64 {
        return Err("operator decoder gas limit exceeded".to_string());
    }
    let (slots, crumbs) = match unpack_path(
        block.original_len,
        block.terminals.len(),
        &block.terminal_indices,
        steps,
        &block.breadcrumbs,
        Ghost(block@),
    ) {
        Ok(p) => p,
        Err(e) => return Err(e),
    };
    let operator = match parse_operator_runtime_key(block.key.as_slice()) {
        Ok(o) => o,
        Err(e) => return Err(e),
    };
    match rebuild_path(&block.terminals, &slots, &crumbs, steps) {
        Some(words) => {
            let restored = transform_words(words.as_slice(), &operator);
            Ok(words_to_bytes(&restored))
        },
        None => Err("operator terminal index is out of range".to_string()),
    }
}

/// Decoding an operator block gives back the block it was made from.
pub proof fn law_operator_block_roundtrip(block: Seq<u8>)
    requires
        operator_block(block) is Some,
        block.len() <= u32::MAX,
    ensures
        decoded_operator(operator_block(block)->Some_0) == Ok::<Seq<u8>, Seq<char>>(block),
{
    lemma_operator_applies(block);
    let words = words_of(block);
    let t = signature(block);
    let raw = selected_key(t, words)->Ok_0->Some_0;
    let keys = family(t, words)->Ok_0;
    lemma_best_key_score(words, keys, keys.len());
    let i = choose|i: int| 0 <= i < keys.len() && keys[i] == raw;
    lemma_family_readable(t, words, i);
    let o = runtime_of(blueprint_of(raw)->Ok_0);
    let transformed = operated_words(words, o);
    lemma_best_steps(transformed, 63);
    let s = best_steps(transformed, 63)->Some_0;
    crate::kernel::key::law_key_bytes_roundtrip(raw);
    lemma_path_roundtrip(transformed, s, le_bytes(raw as nat, 8));
    let back = operated_words(transformed, o);
    assert forall|k: int| 0 <= k < words.len() implies back[k] == words[k] by {
        law_operator_is_an_involution(words[k], o);
    }
    assert(back =~= words);
    crate::words::lemma_words_roundtrip(block);
}

/// An operator block is only made where the operator makes the trajectories
/// strictly better.
pub proof fn law_operator_block_is_better(block: Seq<u8>)
    requires
        operator_block(block) is Some,
    ensures
        ({
            let words = words_of(block);
            let raw = selected_key(signature(block), words)->Ok_0->Some_0;
            &&& operator_block(block)->Some_0.key == le_bytes(raw as nat, 8)
            &&& better_score(key_score(words, raw), best_score(words, 63))
        }),
{
    let words = words_of(block);
    let t = signature(block);
    let raw = selected_key(t, words)->Ok_0->Some_0;
    let keys = family(t, words)->Ok_0;
    lemma_best_key_score(words, keys, keys.len());
    law_selected_key_is_best(t, words, raw);
}

/// An operator changes every word in the same bits, and none exactly where it
/// turns no phase.
pub proof fn law_operator_changes_words(left: u64, right: u64, o: SpectralOperatorKey)
    ensures
        operated(left, o) ^ left == operated(right, o) ^ right,
        operated(left, o) == left <==> binary_key(o).phase_mask == 0,
{
    crate::kernel::operator::law_binary_u_k_adds_a_word(left, right, binary_key(o));
}

/// The keys that are tried are the one of the block's own topology and one for
/// each pair of the four most biased bits; they are tried in ascending order.
pub proof fn law_family_of_keys(t: Topology, words: Seq<u64>, d: int, s: int)
    requires
        family(t, words) is Ok,
        0 <= d < 4,
        0 <= s < 4,
        d != s,
    ensures
        ({
            let keys = family(t, words)->Ok_0;
            &&& keys.contains(blueprint_word(blueprint_for(t)))
            &&& keys.contains(blueprint_word(variant(t, words, d, s)))
            &&& forall|i: int, j: int|
                0 <= i < j < keys.len() ==> #[trigger] keys[i] < #[trigger] keys[j]
            &&& keys.len() <= 13
        }),
{
    let all = family_words(t, words);
    let keys = family(t, words)->Ok_0;
    crate::order::lemma_distinct(all);
    let i = 3 * d + (if s < d {
        s
    } else {
        s - 1
    });
    assert(i / 3 == d && partner(i) == s);
    assert(all[i] == blueprint_word(variant(t, words, d, s)));
    assert(all[12] == blueprint_word(blueprint_for(t)));
    assert(all.contains(all[i]));
    assert(all.contains(all[12]));
    assert(keys.no_duplicates()) by {
        assert forall|i: int, j: int| 0 <= i < j < keys.len() implies keys[i] != keys[j] by {
            assert(keys[i] < keys[j]);
        }
    }
    keys.unique_seq_to_set();
    all.lemma_cardinality_of_set();
    assert(keys.to_set() =~= all.to_set());
}

/// The key of a pair of bits tells both of them: the first as it is, the second
/// and the one after it by how far behind the first they lie, in a ring of 32.
pub proof fn law_variant_tells_bits(t: Topology, words: Seq<u64>, d: int, s: int)
    requires
        0 <= d < 4,
        0 <= s < 4,
    ensures
        ({
            let v = variant(t, words, d, s);
            let peaks = binary_peaks(words);
            &&& v.dominant_index == peaks[d].bit
            &&& v.dominant_positive == peaks[d].positive
            &&& (peaks[d].bit + v.secondary_delta + 1) % 32 == peaks[s].bit as int % 32
            &&& (peaks[d].bit + v.tertiary_delta + 1) % 32 == peaks[(s + 1) % 4].bit as int % 32
        }),
{
    let peaks = binary_peaks(words);
    lemma_ring(peaks[d].bit, peaks[s].bit);
    lemma_ring(peaks[d].bit, peaks[(s + 1) % 4].bit);
    let v = variant(t, words, d, s);
    assert(v.secondary_delta == bit_delta(peaks[d].bit, peaks[s].bit));
    assert(v.tertiary_delta == bit_delta(peaks[d].bit, peaks[(s + 1) % 4].bit));
}

proof fn lemma_ring(from: u8, to: u8)
    ensures
        (from + bit_delta(from, to) + 1) % 32 == to as int % 32,
{
}

/// A key is selected wherever some key that is tried makes the trajectories
/// better than they are without; and the selected key does so.
pub proof fn law_helpful_key_is_selected(t: Topology, words: Seq<u64>, raw: u64)
    requires
        family(t, words) is Ok,
        family(t, words)->Ok_0.contains(raw),
        better_score(key_score(words, raw), best_score(words, 63)),
    ensures
        selected_key(t, words) matches Ok(Some(chosen)) && better_score(
            key_score(words, chosen),
            best_score(words, 63),
        ),
{
    let keys = family(t, words)->Ok_0;
    let i = choose|i: int| 0 <= i < keys.len() && keys[i] == raw;
    lemma_best_key(words, keys, keys.len(), i);
    lemma_best_key_score(words, keys, keys.len());
}

/// A block has an operator form exactly where it is of at least 64 bytes, a power
/// of two, some key is selected for it, and a path of the words under that key
/// pays; it then takes the shortest such path.
pub proof fn law_operator_form(block: Seq<u8>, raw: u64, steps: nat)
    requires
        1 <= steps <= 63,
    ensures
        ({
            let words = words_of(block);
            let changed = operated_words(words, runtime_of(blueprint_of(raw)->Ok_0));
            let selected = selected_key(signature(block), words) == Ok::<Option<u64>, Seq<char>>(
                Some(raw),
            );
            &&& block.len() >= 64 && is_pow2(block.len() as int) && selected && path_pays(
                changed,
                steps,
            ) ==> (operator_block(block) matches Some(b) && b.key == le_bytes(raw as nat, 8)
                && path_cost(changed, b.steps as nat) <= path_cost(changed, steps))
            &&& operator_block(block) is Some ==> block.len() >= 64 && is_pow2(block.len() as int)
                && (selected_key(signature(block), words) matches Ok(Some(_)))
            &&& selected ==> (operator_block(block) matches Some(b) ==> path_pays(
                changed,
                b.steps as nat,
            ))
        }),
{
    let changed = operated_words(words_of(block), runtime_of(blueprint_of(raw)->Ok_0));
    lemma_best_steps(changed, 63);
    if path_pays(changed, steps) {
        law_best_path(changed, steps);
    }
}

/// A key is scored by the shortest plan of the words that it makes of the block:
/// each word with the same bits turned around.
pub proof fn law_key_score_is_of_changed_words(words: Seq<u64>, raw: u64)
    ensures
        ({
            let o = runtime_of(blueprint_of(raw)->Ok_0);
            key_score(words, raw) == best_score(
                words.map_values(|w: u64| w ^ operated(0, o)),
                63,
            )
        }),
{
    let o = runtime_of(blueprint_of(raw)->Ok_0);
    let c = operated(0, o);
    let changed = words.map_values(|w: u64| w ^ c);
    assert forall|i: int| 0 <= i < words.len() implies operated_words(words, o)[i]
        == #[trigger] changed[i] by {
        let w = words[i];
        law_operator_changes_words(w, 0, o);
        crate::words::lemma_xor(c, 0);
        crate::words::lemma_xor(operated(w, o), w);
        crate::words::lemma_xor(c, w);
    }
    assert(operated_words(words, o) =~= changed);
}

} // verus!
