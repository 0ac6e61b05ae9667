//! Blocks of words told by parity trajectories.
use vstd::prelude::*;
use vstd::arithmetic::power2::pow2;
use crate::bitstream::{
    bit_width_for_cardinality, ceil_div, ceil_div_u64, index_bits, index_width, lemma_index_bits,
    pack_indices, packed_bits, unpack_indices, unpacked_indices,
};
use crate::codec::palette::{
    all_crumbs, build_plan, candidate_steps, collect_palette, ends, has_plan,
    lemma_bools_roundtrip, lemma_narrow_index, pack_bools, palette, plan_of, slot, slots,
    unpack_bools, unpacked_bools, MAX_DECODER_STEPS,
};
use crate::codec::wire::path_size;
use crate::kernel::budget::{law_block_policy, mvp_policy, policy_verdict, BitBudget, CompressionPolicy};
use crate::kernel::key::{key_word, packed_payload, steps_of, MagicKey};
use crate::kernel::topology::{block_fingerprint, fingerprint};
use crate::kernel::trajectory::{
    crumbs_of, lemma_crumbs_len, rebuild_word, rebuilt, terminal_of,
};
use crate::model::{produced, BlockEncoding, BlockView, PathView, TrajectoryBlock};
use crate::order::{lemma_distinct, lists_ascending, sort_distinct};
use crate::text::outcome;
use crate::words::{le_bytes, push_u64, to_words, word_bytes, words_of};

verus! {

/// The bytes that the places in the palette take.
pub open spec fn slot_bytes(words: Seq<u64>, steps: nat) -> nat {
    ceil_div(words.len() * index_width(palette(words, steps).len()), 8)
}

/// The bytes that the crumbs take.
pub open spec fn crumb_bytes(words: Seq<u64>, steps: nat) -> nat {
    ceil_div(words.len() * steps, 8)
}

/// The length of the block that tells words in `steps` steps.
pub open spec fn path_cost(words: Seq<u64>, steps: nat) -> nat {
    path_size(
        8,
        palette(words, steps).len(),
        slot_bytes(words, steps),
        crumb_bytes(words, steps),
    )
}

/// What that block costs, part by part.
pub open spec fn path_budget(words: Seq<u64>, steps: nat) -> BitBudget {
    BitBudget {
        source_bits: (64 * words.len()) as u64,
        key_bits: 64,
        crumb_bits: (8 * (slot_bytes(words, steps) + crumb_bytes(words, steps))) as u64,
        overhead_bits: (8 * (18 + 8 * palette(words, steps).len())) as u64,
    }
}

/// The parts of the budget add up to the block as it is written.
pub proof fn law_path_budget_is_complete(words: Seq<u64>, steps: nat, key: Seq<u8>)
    requires
        has_plan(words, steps as int, 256),
        words.len() <= 0x2000_0000,
        key.len() == 8,
    ensures
        path_budget(words, steps).spent() == 8 * path_cost(words, steps),
        crate::codec::wire::block_wire(BlockView::Trajectory(path_view(words, steps, key))).len()
            == path_cost(words, steps),
        crate::codec::wire::block_wire(BlockView::Operator(path_view(words, steps, key))).len()
            == path_cost(words, steps),
{
    let terminals = palette(words, steps);
    let plan = plan_of(words, steps);
    lemma_narrow_index(terminals.len());
    lemma_small_product(words.len(), index_width(terminals.len()), 8);
    lemma_small_product(words.len(), steps, 63);
    lemma_index_bits(plan.terminal_indices, index_width(terminals.len()));
    lemma_all_crumbs(words, steps);
    assert(words.len() * index_width(terminals.len()) == index_width(terminals.len()) * words.len())
        by (nonlinear_arith);
    crate::codec::wire::law_block_size(BlockView::Trajectory(path_view(words, steps, key)));
    crate::codec::wire::law_block_size(BlockView::Operator(path_view(words, steps, key)));
}

/// A block of `steps` steps exists, can be decoded, and pays.
pub open spec fn path_pays(words: Seq<u64>, steps: nat) -> bool {
    &&& has_plan(words, steps as int, 256)
    &&& words.len() * steps <= MAX_DECODER_STEPS
    &&& policy_verdict(mvp_policy(), path_budget(words, steps)) == Ok::<bool, Seq<char>>(true)
}

/// The step count of the shortest block of up to `max` steps that pays, fewer
/// steps first among equals.
pub open spec fn best_steps(words: Seq<u64>, max: nat) -> Option<nat>
    decreases max,
{
    if max == 0 {
        None
    } else {
        let best = best_steps(words, (max - 1) as nat);
        if !path_pays(words, max) {
            best
        } else {
            match best {
                None => Some(max),
                Some(s) => if path_cost(words, max) < path_cost(words, s) {
                    Some(max)
                } else {
                    Some(s)
                },
            }
        }
    }
}

/// The block that tells words in `steps` steps.
pub open spec fn path_view(words: Seq<u64>, steps: nat, key: Seq<u8>) -> PathView {
    let plan = plan_of(words, steps);
    PathView {
        original_len: (8 * words.len()) as u32,
        key,
        terminals: plan.terminals,
        terminal_indices: packed_bits(
            index_bits(plan.terminal_indices, plan.terminal_index_bits as nat),
        ),
        steps: steps as u8,
        breadcrumbs: packed_bits(plan.breadcrumbs),
    }
}

/// The parts of a path block, ready to be put into one.
pub(crate) struct PathParts {
    pub(crate) terminals: Vec<u64>,
    pub(crate) terminal_indices: Vec<u8>,
    pub(crate) steps: u8,
    pub(crate) breadcrumbs: Vec<u8>,
}

/// Products with a small factor stay small.
proof fn lemma_small_product(n: nat, k: nat, top: nat)
    requires
        k <= top,
    ensures
        0 <= n * k <= n * top,
{
    assert(0 <= n * k <= n * top) by (nonlinear_arith)
        requires
            k <= top,
    ;
}

/// Finds the best step count and builds the block.
pub(crate) fn best_path(words: &[u64]) -> (r: Option<PathParts>)
    requires
        words@.len() <= 0x2000_0000,
    ensures
        match r {
            Some(p) => best_steps(words@, 63) == Some(p.steps as nat) && (forall|key: Seq<u8>|
                #[trigger] path_view(words@, p.steps as nat, key) == PathView {
                    original_len: (8 * words@.len()) as u32,
                    key,
                    terminals: p.terminals@,
                    terminal_indices: p.terminal_indices@,
                    steps: p.steps,
                    breadcrumbs: p.breadcrumbs@,
                }),
            None => best_steps(words@, 63) is None,
        },
{
    let n: usize = words.len();
    if n == 0 {
        proof {
            lemma_no_path(words@, 63);
        }
        return None;
    }
    let sorted = sort_distinct(words);
    let mut found: bool = false;
    let mut best: u8 = 0;
    let mut best_cost: u64 = 0;
    let range = candidate_steps();
    for steps in range.start..range.end
        invariant
            range.start == 1,
            range.end == 64,
            n == words@.len(),
            0 < n <= 0x2000_0000,
            lists_ascending(sorted@, words@),
            match best_steps(words@, (steps - 1) as nat) {
                Some(s) => found && best == s && 1 <= best < 64 && best_cost == path_cost(words@, s)
                    && palette(words@, s).len() <= 256,
                None => !found,
            },
    {
        let terminals = collect_palette(&sorted, steps, Ghost(words@));
        let count: usize = terminals.len();
        if count <= 256 {
            let width: u8 = bit_width_for_cardinality(count);
            proof {
                lemma_narrow_index(count as nat);
                lemma_small_product(n as nat, width as nat, 8);
                lemma_small_product(n as nat, steps as nat, 63);
            }
            let total: u64 = n as u64 * steps as u64;
            let slot_len: u64 = ceil_div_u64(n as u64 * width as u64, 8);
            let crumb_len: u64 = ceil_div_u64(total, 8);
            let budget = BitBudget {
                source_bits: n as u64 * 64,
                key_bits: 64,
                crumb_bits: 8 * (slot_len + crumb_len),
                overhead_bits: 8 * (18 + 8 * count as u64),
            };
            assert(budget == path_budget(words@, steps as nat));
            let pays: bool = match CompressionPolicy::mvp().accepts(budget) {
                Ok(b) => b,
                Err(_) => false,
            };
            if total <= MAX_DECODER_STEPS as u64 && pays {
                let cost: u64 = 26 + 8 * count as u64 + slot_len + crumb_len;
                assert(path_pays(words@, steps as nat));
                if !found || cost < best_cost {
                    found = true;
                    best = steps;
                    best_cost = cost;
                }
            }
        }
    }
    if !found {
        return None;
    }
    let terminals = collect_palette(&sorted, best, Ghost(words@));
    let plan = build_plan(words, best, terminals);
    proof {
        lemma_narrow_index(plan.terminals@.len());
    }
    let terminal_indices = pack_indices(
        plan.terminal_indices.as_slice(),
        plan.terminal_index_bits,
    );
    let breadcrumbs = pack_bools(plan.breadcrumbs.as_slice());
    Some(PathParts { terminals: plan.terminals, terminal_indices, steps: best, breadcrumbs })
}

proof fn lemma_no_path(words: Seq<u64>, max: nat)
    requires
        words.len() == 0,
    ensures
        best_steps(words, max) is None,
    decreases max,
{
    if max > 0 {
        lemma_no_path(words, (max - 1) as nat);
    }
}

/// The chosen step count pays.
pub proof fn lemma_best_steps(words: Seq<u64>, max: nat)
    ensures
        best_steps(words, max) matches Some(s) ==> 1 <= s <= max && path_pays(words, s),
    decreases max,
{
    if max > 0 {
        lemma_best_steps(words, (max - 1) as nat);
    }
}

/// The trajectory key of a block.
pub open spec fn trajectory_key(block: Seq<u8>, steps: u8) -> Result<u64, Seq<char>> {
    match fingerprint(block) {
        Err(e) => Err(e),
        Ok(f) => packed_payload(f, steps),
    }
}

/// Makes the trajectory key of a block.
pub fn build_trajectory_key(block: &[u8], steps: u8) -> (r: Result<MagicKey, String>)
    ensures
        outcome(r) == trajectory_key(block@, steps),
{
    match block_fingerprint(block) {
        Err(e) => Err(e),
        Ok(f) => MagicKey::from_trajectory_payload(f, steps),
    }
}

/// The trajectory block of a block of at least two whole words, if it pays.
pub open spec fn trajectory_block(block: Seq<u8>) -> Option<PathView> {
    if block.len() < 16 || block.len() % 8 != 0 {
        None
    } else {
        match best_steps(words_of(block), 63) {
            None => None,
            Some(s) => Some(
                path_view(
                    words_of(block),
                    s,
                    le_bytes(trajectory_key(block, s as u8)->Ok_0 as nat, 8),
                ),
            ),
        }
    }
}

/// Encodes a block by parity trajectories.
pub fn try_encode_trajectory_block(block: &[u8]) -> (r: Result<Option<BlockEncoding>, String>)
    requires
        block@.len() <= u32::MAX,
    ensures
        produced(
            r,
            match trajectory_block(block@) {
                Some(b) => Some(BlockView::Trajectory(b)),
                None => None,
            },
        ),
{
    if block.len() < 16 || block.len() % 8 != 0 {
        return Ok(None);
    }
    let words = to_words(block);
    proof {
        lemma_best_steps(words@, 63);
    }
    match best_path(words.as_slice()) {
        None => Ok(None),
        Some(parts) => {
            let key = match build_trajectory_key(block, parts.steps) {
                Ok(k) => k,
                Err(e) => return Err(e),
            };
            let bytes = key.serialize();
            let key_bytes = vstd::slice::slice_to_vec(bytes.as_slice());
            assert(path_view(words@, parts.steps as nat, key_bytes@).key == key_bytes@);
            Ok(
                Some(
                    BlockEncoding::Trajectory(
                        TrajectoryBlock {
                            original_len: block.len() as u32,
                            key: key_bytes,
                            terminals: parts.terminals,
                            terminal_indices: parts.terminal_indices,
                            steps: parts.steps,
                            breadcrumbs: parts.breadcrumbs,
                        },
                    ),
                ),
            )
        },
    }
}

/// Every place is one of the palette.
pub open spec fn slots_fit(terminals: Seq<u64>, slots: Seq<u8>) -> bool {
    forall|i: int| 0 <= i < slots.len() ==> (#[trigger] slots[i] as int) < terminals.len()
}

/// Words rebuilt from their ends and crumbs.
pub open spec fn rebuilt_words(
    terminals: Seq<u64>,
    slots: Seq<u8>,
    crumbs: Seq<bool>,
    steps: int,
) -> Seq<u64> {
    Seq::new(
        slots.len(),
        |i: int|
            (rebuilt(
                terminals[slots[i] as int] as nat,
                crumbs.subrange(i * steps, i * steps + steps),
            ) % pow2(64)) as u64,
    )
}

/// The places and crumbs of a path block.
pub open spec fn unpacked_path(b: PathView) -> Result<(Seq<u8>, Seq<bool>), Seq<char>> {
    let word_count = b.original_len as nat / 8;
    match unpacked_indices(
        b.terminal_indices,
        index_width(b.terminals.len()) as int,
        word_count as int,
    ) {
        Err(e) => Err(e),
        Ok(slots) => match unpacked_bools(b.breadcrumbs, word_count * b.steps as nat) {
            Err(e) => Err(e),
            Ok(crumbs) => Ok((slots, crumbs)),
        },
    }
}

/// Why a path block cannot be walked, if so.
pub open spec fn walk_fault(
    b: PathView,
    overflow_fault: Seq<char>,
    limit_fault: Seq<char>,
) -> Option<Seq<char>> {
    let total = (b.original_len as nat / 8) * b.steps as nat;
    if total > usize::MAX {
        Some(overflow_fault)
    } else if total > MAX_DECODER_STEPS {
        Some(limit_fault)
    } else {
        None
    }
}

/// What decoding a trajectory block gives.
pub open spec fn decoded_trajectory(b: PathView) -> Result<Seq<u8>, Seq<char>> {
    match key_word(b.key) {
        Err(e) => Err(e),
        Ok(raw) => match steps_of(raw) {
            Err(e) => Err(e),
            Ok(steps) => if steps != b.steps {
                Err("trajectory K does not match the encoded step count"@)
            } else if b.original_len % 8 != 0 {
                Err("trajectory block length must be divisible by word size"@)
            } else {
                match walk_fault(
                    b,
                    "trajectory decoder step overflow"@,
                    "trajectory decoder gas limit exceeded"@,
                ) {
                    Some(e) => Err(e),
                    None => match unpacked_path(b) {
                        Err(e) => Err(e),
                        Ok((slots, crumbs)) => if slots_fit(b.terminals, slots) {
                            Ok(
                                word_bytes(
                                    rebuilt_words(b.terminals, slots, crumbs, b.steps as int),
                                ),
                            )
                        } else {
                            Err("trajectory terminal index is out of range"@)
                        },
                    },
                }
            },
        },
    }
}

/// Unpacks a path block whose walk has been checked.
pub(crate) fn unpack_path(
    original_len: u32,
    terminal_count: usize,
    terminal_indices: &Vec<u8>,
    steps: u8,
    breadcrumbs: &Vec<u8>,
    Ghost(view): Ghost<PathView>,
) -> (r: Result<(Vec<u8>, Vec<bool>), String>)
    requires
        (original_len as nat / 8) * steps as nat <= MAX_DECODER_STEPS,
        view.original_len == original_len,
        view.terminals.len() == terminal_count,
        view.terminal_indices == terminal_indices@,
        view.steps == steps,
        view.breadcrumbs == breadcrumbs@,
    ensures
        match r {
            Ok((slots, crumbs)) => unpacked_path(view) == Ok::<(Seq<u8>, Seq<bool>), Seq<char>>(
                (slots@, crumbs@),
            ) && slots@.len() == original_len as nat / 8 && crumbs@.len() == slots@.len() * steps,
            Err(e) => unpacked_path(view) == Err::<(Seq<u8>, Seq<bool>), Seq<char>>(e@),
        },
{
    let word_count: usize = original_len as usize / 8;
    let width: u8 = bit_width_for_cardinality(terminal_count);
    let slots = match unpack_indices(terminal_indices.as_slice(), width, word_count) {
        Ok(v) => v,
        Err(e) => return Err(e),
    };
    let total: usize = word_count * steps as usize;
    match unpack_bools(breadcrumbs.as_slice(), total) {
        Ok(crumbs) => Ok((slots, crumbs)),
        Err(e) => Err(e),
    }
}

/// Rebuilds words, unless a place is not one of the palette.
pub(crate) fn rebuild_path(
    terminals: &Vec<u64>,
    slots: &Vec<u8>,
    crumbs: &Vec<bool>,
    steps: u8,
) -> (r: Option<Vec<u64>>)
    requires
        crumbs@.len() == slots@.len() * steps,
    ensures
        match r {
            Some(words) => slots_fit(terminals@, slots@) && words@ == rebuilt_words(
                terminals@,
                slots@,
                crumbs@,
                steps as int,
            ),
            None => !slots_fit(terminals@, slots@),
        },
{
    let n: usize = slots.len();
    let mut words: Vec<u64> = Vec::new();
    let mut at: usize = 0;
    assert(0 * steps == 0);
    for i in 0..n
        invariant
            n == slots@.len(),
            crumbs@.len() == n * steps,
            at == i * steps,
            forall|k: int| 0 <= k < i ==> (#[trigger] slots@[k] as int) < terminals@.len(),
            words@ =~= rebuilt_words(terminals@, slots@, crumbs@, steps as int).take(i as int),
    {
        let index: usize = slots[i] as usize;
        if index >= terminals.len() {
            assert(slots@[i as int] as int >= terminals@.len());
            return None;
        }
        proof {
            assert(i * steps + steps == (i + 1) * steps && (i + 1) * steps <= n * steps)
                by (nonlinear_arith)
                requires
                    i < n,
            ;
            assert(crumbs.len() == crumbs@.len());
        }
        let next: usize = at + steps as usize;
        let part = vstd::slice::slice_subrange(crumbs.as_slice(), at, next);
        words.push(rebuild_word(terminals[index], part));
        at = next;
    }
    assert(words@ =~= rebuilt_words(terminals@, slots@, crumbs@, steps as int));
    Some(words)
}

/// Writes words as bytes.
pub(crate) fn words_to_bytes(words: &Vec<u64>) -> (out: Vec<u8>)
    ensures
        out@ == word_bytes(words@),
{
    let mut out: Vec<u8> = Vec::new();
    let n: usize = words.len();
    for i in 0..n
        invariant
            n == words@.len(),
            out@ == word_bytes(words@.take(i as int)),
    {
        assert(words@.take(i + 1).drop_last() =~= words@.take(i as int));
        push_u64(&mut out, words[i]);
    }
    assert(words@.take(n as int) =~= words@);
    out
}

/// Decodes a trajectory block.
pub fn decode_trajectory_block(block: &TrajectoryBlock) -> (r: Result<Vec<u8>, String>)
    ensures
        outcome(r) == decoded_trajectory(block@),
{
    let key = match MagicKey::parse(block.key.as_slice()) {
        Ok(k) => k,
        Err(e) => return Err(e),
    };
    let steps = match key.trajectory_steps() {
        Ok(s) => s,
        Err(e) => return Err(e),
    };
    if steps != block.steps {
        return Err("trajectory K does not match the encoded step count".to_string());
    }
    if block.original_len % 8 != 0 {
        return Err("trajectory block length must be divisible by word size".to_string());
    }
    proof {
        lemma_small_product((block.original_len / 8) as nat, steps as nat, 63);
    }
    let total: u64 = (block.original_len / 8) as u64 * steps as u64;
    if total > usize::MAX as u64 {
        return Err("trajectory decoder step overflow".to_string());
    }
    if total > MAX_DECODER_STEPS as u64 {
        return Err("trajectory decoder gas limit exceeded".to_string());
    }
    let (slots, crumbs) = match unpack_path(
        block.original_len,
        block.terminals.len(),
        &block.terminal_indices,
        block.steps,
        &block.breadcrumbs,
        Ghost(block@),
    ) {
        Ok(p) => p,
        Err(e) => return Err(e),
    };
    match rebuild_path(&block.terminals, &slots, &crumbs, block.steps) {
        Some(words) => Ok(words_to_bytes(&words)),
        None => Err("trajectory terminal index is out of range".to_string()),
    }
}

/// The crumbs of word `i` among the crumbs of all words.
proof fn lemma_all_crumbs(words: Seq<u64>, steps: nat)
    ensures
        all_crumbs(words, steps).len() == words.len() * steps,
        forall|i: int|
            0 <= i < words.len() ==> all_crumbs(words, steps).subrange(
                i * steps,
                i * steps + steps,
            ) == #[trigger] crumbs_of(words[i] as nat, steps),
    decreases words.len(),
{
    if words.len() == 0 {
        assert(0 * steps == 0);
    } else {
        let front = words.drop_last();
        let n = front.len() as int;
        lemma_all_crumbs(front, steps);
        lemma_crumbs_len(words.last() as nat, steps);
        assert(n * steps + steps == (n + 1) * steps) by (nonlinear_arith);
        let all = all_crumbs(words, steps);
        assert forall|i: int| 0 <= i < words.len() implies all.subrange(
            i * steps,
            i * steps + steps,
        ) == #[trigger] crumbs_of(words[i] as nat, steps) by {
            if i < n {
                assert(0 <= i * steps && i * steps + steps <= n * steps) by (nonlinear_arith)
                    requires
                        0 <= i < n,
                ;
                assert(words[i] == front[i]);
                assert(all.subrange(i * steps, i * steps + steps) =~= all_crumbs(
                    front,
                    steps,
                ).subrange(i * steps, i * steps + steps));
            } else {
                assert(all.subrange(i * steps, i * steps + steps) =~= crumbs_of(
                    words.last() as nat,
                    steps,
                ));
            }
        }
    }
}

/// How long the streams of a path block are.
pub proof fn lemma_path_lengths(words: Seq<u64>, steps: nat, key: Seq<u8>)
    requires
        has_plan(words, steps as int, 256),
        8 * words.len() <= u32::MAX,
    ensures
        ({
            let b = path_view(words, steps, key);
            &&& 0 < b.terminals.len() <= 256
            &&& b.original_len == 8 * words.len()
            &&& b.terminal_indices.len() == slot_bytes(words, steps)
            &&& b.breadcrumbs.len() == crumb_bytes(words, steps)
        }),
{
    let terminals = palette(words, steps);
    lemma_distinct(ends(words, steps));
    assert(ends(words, steps).contains(ends(words, steps)[0]));
    assert(terminals.contains(ends(words, steps)[0]));
    lemma_narrow_index(terminals.len());
    lemma_index_bits(plan_of(words, steps).terminal_indices, index_width(terminals.len()));
    lemma_all_crumbs(words, steps);
    vstd::arithmetic::mul::lemma_mul_is_commutative(
        words.len() as int,
        index_width(terminals.len()) as int,
    );
}

/// A path block that pays is read back as the words it was made from.
pub proof fn lemma_path_roundtrip(words: Seq<u64>, steps: nat, key: Seq<u8>)
    requires
        path_pays(words, steps),
        8 * words.len() <= u32::MAX,
    ensures
        unpacked_path(path_view(words, steps, key)) is Ok,
        ({
            let (s, crumbs) = unpacked_path(path_view(words, steps, key))->Ok_0;
            &&& slots_fit(palette(words, steps), s)
            &&& rebuilt_words(palette(words, steps), s, crumbs, steps as int) == words
        }),
        walk_fault(path_view(words, steps, key), Seq::empty(), Seq::empty()) is None,
{
    let b = path_view(words, steps, key);
    let terminals = palette(words, steps);
    let of = ends(words, steps);
    let width = index_width(terminals.len());
    let s = slots(terminals, of);
    lemma_distinct(of);
    lemma_narrow_index(terminals.len());
    assert forall|i: int| 0 <= i < s.len() implies (#[trigger] s[i] as nat) < pow2(width) && s[i]
        < terminals.len() && terminals[s[i] as int] == of[i] by {
        assert(of.contains(of[i]));
        assert(terminals.contains(of[i]));
        let k = slot(terminals, of[i]);
        assert(terminals[k] == of[i]);
        vstd::arithmetic::power2::lemma2_to64();
        if terminals.len() > 1 {
            crate::bitstream::lemma_bit_len((terminals.len() - 1) as nat, width);
        }
    }
    crate::bitstream::law_pack_unpack(s, width);
    let crumbs = all_crumbs(words, steps);
    lemma_all_crumbs(words, steps);
    lemma_bools_roundtrip(crumbs);
    assert(b.original_len as nat / 8 == words.len());
    let got = rebuilt_words(terminals, s, crumbs, steps as int);
    assert forall|i: int| 0 <= i < words.len() implies got[i] == words[i] by {
        let w = words[i];
        crate::kernel::trajectory::law_trajectory_roundtrip(w, steps as int);
        crate::kernel::trajectory::lemma_terminal_le(w as nat, steps);
        assert(crumbs.subrange(i * steps, i * steps + steps) == crumbs_of(w as nat, steps));
        assert(terminals[s[i] as int] == terminal_of(w as nat, steps));
        vstd::arithmetic::power2::lemma2_to64_rest();
        vstd::arithmetic::div_mod::lemma_small_mod(w as nat, pow2(64));
    }
    assert(got =~= words);
}

/// Decoding a trajectory block gives back the block it was made from.
pub proof fn law_trajectory_block_roundtrip(block: Seq<u8>)
    requires
        trajectory_block(block) is Some,
        block.len() <= u32::MAX,
    ensures
        decoded_trajectory(trajectory_block(block)->Some_0) == Ok::<Seq<u8>, Seq<char>>(block),
{
    let words = words_of(block);
    lemma_best_steps(words, 63);
    let s = best_steps(words, 63)->Some_0;
    let raw = trajectory_key(block, s as u8)->Ok_0;
    crate::kernel::key::law_payload_roundtrip(fingerprint(block)->Ok_0, s as u8);
    crate::kernel::key::law_key_bytes_roundtrip(raw);
    lemma_path_roundtrip(words, s, le_bytes(raw as nat, 8));
    crate::words::lemma_words_roundtrip(block);
}

/// The path of `steps` steps is told in a block that is a tenth shorter than the
/// words and whose decoder walks no more than a million steps.
pub proof fn law_path_pays(words: Seq<u64>, steps: nat)
    requires
        words.len() <= 0x2000_0000,
        has_plan(words, steps as int, 256),
    ensures
        path_pays(words, steps) <==> {
            &&& words.len() * steps <= 1_000_000
            &&& 10 * path_cost(words, steps) <= 72 * words.len()
            &&& words.len() >= 4
        },
{
    law_path_budget_is_complete(words, steps, Seq::new(8, |i: int| 0u8));
    let n = words.len();
    lemma_narrow_index(palette(words, steps).len());
    lemma_small_product(n, index_width(palette(words, steps).len()), 8);
    lemma_small_product(n, steps, 63);
    law_block_policy(path_budget(words, steps));
}

/// Words are told by the shortest path of one to 63 steps that pays, of the
/// fewest steps among equals; they are not told by a path exactly where none
/// pays.
pub proof fn law_best_path(words: Seq<u64>, steps: nat)
    requires
        1 <= steps <= 63,
        path_pays(words, steps),
    ensures
        best_steps(words, 63) matches Some(s) && {
            &&& 1 <= s <= 63
            &&& path_pays(words, s)
            &&& path_cost(words, s) <= path_cost(words, steps)
            &&& steps < s ==> path_cost(words, s) < path_cost(words, steps)
        },
{
    lemma_best_steps(words, 63);
    lemma_shortest_path(words, 63, steps);
}

proof fn lemma_shortest_path(words: Seq<u64>, max: nat, steps: nat)
    requires
        1 <= steps <= max,
        path_pays(words, steps),
    ensures
        best_steps(words, max) matches Some(s) && path_cost(words, s) <= path_cost(words, steps)
            && (steps < s ==> path_cost(words, s) < path_cost(words, steps)),
    decreases max,
{
    if steps < max {
        lemma_shortest_path(words, (max - 1) as nat, steps);
    } else {
        lemma_best_steps(words, (max - 1) as nat);
    }
}

/// A block of at least two whole words is told by a trajectory exactly where
/// some path of its words pays, and the block is no longer than any such path.
pub proof fn law_trajectory_form(block: Seq<u8>, steps: nat)
    requires
        block.len() <= u32::MAX,
        1 <= steps <= 63,
    ensures
        block.len() >= 16 && block.len() % 8 == 0 && path_pays(words_of(block), steps)
            ==> (trajectory_block(block) matches Some(b) && crate::codec::wire::block_size(
            BlockView::Trajectory(b),
        ) <= path_cost(words_of(block), steps)),
        trajectory_block(block) matches Some(b) ==> block.len() >= 16 && block.len() % 8 == 0
            && path_pays(words_of(block), b.steps as nat),
{
    let words = words_of(block);
    lemma_best_steps(words, 63);
    if path_pays(words, steps) {
        law_best_path(words, steps);
    }
    if trajectory_block(block) is Some {
        let s = best_steps(words, 63)->Some_0;
        let key = le_bytes(trajectory_key(block, s as u8)->Ok_0 as nat, 8);
        crate::words::lemma_le_bytes_len(trajectory_key(block, s as u8)->Ok_0 as nat, 8);
        law_path_budget_is_complete(words, s, key);
        crate::codec::wire::law_block_size(BlockView::Trajectory(path_view(words, s, key)));
    }
}

} // verus!
