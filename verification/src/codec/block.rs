//! One block: the shortest of its encodings, and back.
use vstd::prelude::*;
use vstd::arithmetic::power2::{is_pow2, pow2};
use crate::bitstream::{ceil_div, index_width, lemma_bit_len, lemma_index_bits};
use crate::codec::alphabet::{
    alphabet_block, alphabet_of, analyze_block, decode_alphabet_block, decoded_alphabet,
    law_alphabet_form, lemma_alphabet, places,
    try_encode_alphabet_block,
};
use crate::codec::operator::{
    decode_operator_block, decoded_operator, operator_block, try_encode_operator_block,
};
use crate::codec::readable::readable;
use crate::codec::sparse::{
    decode_sparse_alphabet_block, decoded_sparse, sparse_block, try_encode_sparse_alphabet_block,
};
use crate::codec::spectral::{
    decode_spectral_block, decoded_spectral, spectral_block, try_encode_spectral_block,
};
use crate::codec::trajectory::{
    decode_trajectory_block, decoded_trajectory, trajectory_block, try_encode_trajectory_block,
};
use crate::codec::wire::{block_size, wire_size};
use crate::kernel::topology::{analyze_topology, signature, TopologySignature};
use crate::model::{BlockEncoding, BlockView, RawBlock, RawView};
use crate::text::{decimal, numbered, outcome};
use crate::words::is_power_of_two;

verus! {

/// The bytes as they are.
pub open spec fn raw_block(block: Seq<u8>) -> BlockView {
    BlockView::Raw(RawView { original_len: block.len() as u32, payload: block })
}

pub open spec fn operator_form(block: Seq<u8>) -> Option<BlockView> {
    match operator_block(block) {
        Some(b) => Some(BlockView::Operator(b)),
        None => None,
    }
}

pub open spec fn spectral_form(block: Seq<u8>) -> Option<BlockView> {
    match spectral_block(block) {
        Some(b) => Some(BlockView::Spectral(b)),
        None => None,
    }
}

pub open spec fn trajectory_form(block: Seq<u8>) -> Option<BlockView> {
    match trajectory_block(block) {
        Some(b) => Some(BlockView::Trajectory(b)),
        None => None,
    }
}

pub open spec fn sparse_form(block: Seq<u8>) -> Option<BlockView> {
    match sparse_block(block, 3) {
        Some(b) => Some(BlockView::SparseAlphabet(b)),
        None => None,
    }
}

pub open spec fn alphabet_form(block: Seq<u8>) -> Option<BlockView> {
    match alphabet_block(block) {
        Some(b) => Some(BlockView::Alphabet(b)),
        None => None,
    }
}

/// The candidate if it is strictly shorter, else the best so far.
pub open spec fn shorter(best: BlockView, candidate: Option<BlockView>) -> BlockView {
    match candidate {
        Some(c) => if block_size(c) < block_size(best) {
            c
        } else {
            best
        },
        None => best,
    }
}

/// The shortest encoding of a block, the earlier one among equals.
#[verifier::opaque]
pub open spec fn encoded(block: Seq<u8>) -> BlockView {
    let best = shorter(raw_block(block), operator_form(block));
    let best = shorter(best, spectral_form(block));
    let best = shorter(best, trajectory_form(block));
    let best = shorter(best, sparse_form(block));
    shorter(best, alphabet_form(block))
}

fn keep_shorter(best: BlockEncoding, candidate: Option<BlockEncoding>) -> (r: BlockEncoding)
    ensures
        r@ == shorter(
            best@,
            match candidate {
                Some(c) => Some(c@),
                None => None,
            },
        ),
{
    match candidate {
        Some(c) => if wire_size(&c) < wire_size(&best) {
            c
        } else {
            best
        },
        None => best,
    }
}

/// A power of two from eight on counts complete words and a power of two of
/// bits.
proof fn lemma_analysable(n: nat)
    requires
        n >= 8,
        is_pow2(n as int),
    ensures
        n % 8 == 0,
        is_pow2(8 * n as int),
{
    reveal(is_pow2);
    assert(is_pow2(n as int / 2));
    assert(is_pow2(n as int / 2 / 2));
    assert(is_pow2(n as int / 2 / 2 / 2));
    assert(is_pow2(2 * n as int));
    assert(is_pow2(4 * n as int));
}

/// The signature of a block, which exactly the blocks of a power of two of
/// bytes from eight on have.
fn cached_signature(block: &[u8]) -> (cached: Option<TopologySignature>)
    requires
        block@.len() <= u32::MAX,
    ensures
        match cached {
            Some(s) => block@.len() >= 8 && is_pow2(block@.len() as int) && s@ == signature(block@),
            None => block@.len() < 8 || !is_pow2(block@.len() as int),
        },
{
    if block.len() >= 8 && is_power_of_two(block.len()) {
        proof {
            lemma_analysable(block@.len());
        }
        match analyze_topology(block) {
            Ok(s) => Some(s),
            Err(_) => None,
        }
    } else {
        None
    }
}

/// Encodes a block in the shortest way.
pub fn encode_block(block: &[u8]) -> (r: Result<BlockEncoding, String>)
    requires
        block@.len() <= u32::MAX,
    ensures
        r matches Ok(b) && b@ == encoded(block@),
{
    reveal(encoded);
    let analysis = analyze_block(block);
    let cached = cached_signature(block);
    let raw = BlockEncoding::Raw(
        RawBlock { original_len: block.len() as u32, payload: vstd::slice::slice_to_vec(block) },
    );
    assert(raw@ == raw_block(block@));
    let operator = match try_encode_operator_block(block, cached.as_ref()) {
        Ok(b) => b,
        Err(e) => return Err(e),
    };
    let spectral = match try_encode_spectral_block(block, cached.as_ref()) {
        Ok(b) => b,
        Err(e) => return Err(e),
    };
    let trajectory = match try_encode_trajectory_block(block) {
        Ok(b) => b,
        Err(e) => return Err(e),
    };
    let sparse = match try_encode_sparse_alphabet_block(block, &analysis) {
        Ok(b) => b,
        Err(e) => return Err(e),
    };
    let alphabet = match try_encode_alphabet_block(block, &analysis) {
        Ok(b) => b,
        Err(e) => return Err(e),
    };
    let best = keep_shorter(raw, operator);
    let best = keep_shorter(best, spectral);
    let best = keep_shorter(best, trajectory);
    let best = keep_shorter(best, sparse);
    Ok(keep_shorter(best, alphabet))
}

/// The bytes that a block stands for.
#[verifier::opaque]
pub open spec fn decoded_block(block: BlockView) -> Result<Seq<u8>, Seq<char>> {
    match block {
        BlockView::Raw(b) => Ok(b.payload),
        BlockView::Alphabet(b) => decoded_alphabet(b),
        BlockView::SparseAlphabet(b) => decoded_sparse(b),
        BlockView::Spectral(b) => decoded_spectral(b),
        BlockView::Trajectory(b) => decoded_trajectory(b),
        BlockView::Operator(b) => decoded_operator(b),
        BlockView::Adaptive(_) => Err("unknown block mode: "@ + decimal(6)),
    }
}

/// Decodes a block.
pub fn decode_block(block: &BlockEncoding) -> (r: Result<Vec<u8>, String>)
    ensures
        outcome(r) == decoded_block(block@),
{
    reveal(decoded_block);
    match block {
        BlockEncoding::Raw(b) => Ok(vstd::slice::slice_to_vec(b.payload.as_slice())),
        BlockEncoding::Alphabet(b) => decode_alphabet_block(b),
        BlockEncoding::SparseAlphabet(b) => decode_sparse_alphabet_block(b),
        BlockEncoding::Spectral(b) => decode_spectral_block(b),
        BlockEncoding::Trajectory(b) => decode_trajectory_block(b),
        BlockEncoding::Operator(b) => decode_operator_block(b),
        BlockEncoding::Adaptive(_) => Err(numbered("unknown block mode: ", 6)),
    }
}

/// The chosen encoding is one of the candidates, and none of them is shorter.
pub proof fn law_encoding_is_shortest(block: Seq<u8>)
    ensures
        ({
            let b = encoded(block);
            ||| b == raw_block(block)
            ||| operator_form(block) == Some(b)
            ||| spectral_form(block) == Some(b)
            ||| trajectory_form(block) == Some(b)
            ||| sparse_form(block) == Some(b)
            ||| alphabet_form(block) == Some(b)
        }),
        block_size(encoded(block)) <= 9 + block.len(),
        encoded(block) != raw_block(block) ==> block_size(encoded(block)) < 9 + block.len(),
        operator_form(block) matches Some(c) ==> block_size(encoded(block)) <= block_size(c),
        spectral_form(block) matches Some(c) ==> block_size(encoded(block)) <= block_size(c),
        trajectory_form(block) matches Some(c) ==> block_size(encoded(block)) <= block_size(c),
        sparse_form(block) matches Some(c) ==> block_size(encoded(block)) <= block_size(c),
        alphabet_form(block) matches Some(c) ==> block_size(encoded(block)) <= block_size(c),
{
    reveal(encoded);
}

/// Decoding the encoding of a block gives the block back.
pub proof fn law_block_roundtrip(block: Seq<u8>)
    requires
        block.len() <= u32::MAX,
    ensures
        decoded_block(encoded(block)) == Ok::<Seq<u8>, Seq<char>>(block),
{
    reveal(decoded_block);
    law_encoding_is_shortest(block);
    match encoded(block) {
        BlockView::Raw(_) => {},
        BlockView::Alphabet(_) => crate::codec::alphabet::law_alphabet_roundtrip(block),
        BlockView::SparseAlphabet(_) => crate::codec::sparse::law_sparse_roundtrip(block),
        BlockView::Spectral(_) => crate::codec::spectral::law_spectral_roundtrip(block),
        BlockView::Trajectory(_) => crate::codec::trajectory::law_trajectory_block_roundtrip(block),
        BlockView::Operator(_) => crate::codec::operator::law_operator_block_roundtrip(block),
        BlockView::Adaptive(_) => {},
    }
}

proof fn lemma_alphabet_readable(block: Seq<u8>)
    requires
        block.len() <= u32::MAX,
        alphabet_form(block) matches Some(b) && block_size(b) < 9 + block.len(),
    ensures
        readable(alphabet_form(block)->Some_0),
{
    let b = alphabet_block(block)->Some_0;
    lemma_alphabet(block);
    vstd::arithmetic::power2::lemma2_to64();
    lemma_bit_len((b.alphabet.len() - 1) as nat, 7);
    lemma_index_bits(places(b.alphabet, block), index_width(b.alphabet.len()));
    vstd::arithmetic::mul::lemma_mul_is_commutative(block.len() as int, b.bit_width as int);
}

proof fn lemma_sparse_readable(block: Seq<u8>)
    requires
        block.len() <= u32::MAX,
        sparse_form(block) matches Some(b) && block_size(b) < 9 + block.len(),
    ensures
        readable(sparse_form(block)->Some_0),
{
    let b = sparse_block(block, 3)->Some_0;
    let k = crate::codec::sparse::lemma_sparse_choice(block, 3);
    crate::codec::sparse::lemma_candidate_shape(block, k);
    vstd::arithmetic::power2::lemma2_to64();
    lemma_bit_len((b.exception_alphabet.len() - 1) as nat, 8);
}

proof fn lemma_spectral_readable(block: Seq<u8>)
    requires
        block.len() <= u32::MAX,
        spectral_form(block) matches Some(b) && block_size(b) < 9 + block.len(),
    ensures
        readable(spectral_form(block)->Some_0),
{
    crate::codec::spectral::law_spectral_roundtrip(block);
}

proof fn lemma_trajectory_readable(block: Seq<u8>)
    requires
        block.len() <= u32::MAX,
        trajectory_form(block) matches Some(b) && block_size(b) < 9 + block.len(),
    ensures
        readable(trajectory_form(block)->Some_0),
{
    crate::codec::trajectory::law_trajectory_block_roundtrip(block);
    let words = crate::words::words_of(block);
    let b = trajectory_block(block)->Some_0;
    crate::codec::trajectory::lemma_best_steps(words, 63);
    let s = crate::codec::trajectory::best_steps(words, 63)->Some_0;
    crate::codec::trajectory::lemma_path_lengths(words, s, b.key);
}

proof fn lemma_operator_readable(block: Seq<u8>)
    requires
        block.len() <= u32::MAX,
        operator_form(block) matches Some(b) && block_size(b) < 9 + block.len(),
    ensures
        readable(operator_form(block)->Some_0),
{
    crate::codec::operator::law_operator_block_roundtrip(block);
    let words = crate::words::words_of(block);
    let b = operator_block(block)->Some_0;
    let raw = crate::codec::operator::selected_key(signature(block), words)->Ok_0->Some_0;
    let transformed = crate::codec::operator::operated_words(
        words,
        crate::codec::operator::runtime_of(crate::kernel::key::blueprint_of(raw)->Ok_0),
    );
    crate::codec::trajectory::lemma_best_steps(transformed, 63);
    let s = crate::codec::trajectory::best_steps(transformed, 63)->Some_0;
    crate::codec::trajectory::lemma_path_lengths(transformed, s, b.key);
}

/// The encoding of a block passes every check of the reader.
pub proof fn law_encoding_is_readable(block: Seq<u8>)
    requires
        block.len() <= u32::MAX,
    ensures
        readable(encoded(block)),
{
    law_encoding_is_shortest(block);
    match encoded(block) {
        BlockView::Raw(_) => {},
        BlockView::Alphabet(_) => lemma_alphabet_readable(block),
        BlockView::SparseAlphabet(_) => lemma_sparse_readable(block),
        BlockView::Spectral(_) => lemma_spectral_readable(block),
        BlockView::Trajectory(_) => lemma_trajectory_readable(block),
        BlockView::Operator(_) => lemma_operator_readable(block),
        BlockView::Adaptive(_) => {},
    }
}

/// A block of up to 128 different bytes takes no more than 11 bytes, one for
/// each different byte, and as few bits for every byte as tell them apart.
pub proof fn law_few_bytes_take_few_bits(block: Seq<u8>, width: nat)
    requires
        block.len() <= u32::MAX,
        1 <= alphabet_of(block).len() <= 128,
        alphabet_of(block).len() <= pow2(width),
    ensures
        block_size(encoded(block)) <= 11 + alphabet_of(block).len() + ceil_div(
            block.len() * width,
            8,
        ),
{
    law_alphabet_form(block);
    law_encoding_is_shortest(block);
    let b = alphabet_block(block)->Some_0;
    let w = b.bit_width as nat;
    if w > width {
        if width < w - 1 {
            vstd::arithmetic::power2::lemma_pow2_strictly_increases(width, (w - 1) as nat);
        }
        assert(false);
    }
    assert(block.len() * w <= block.len() * width) by (nonlinear_arith)
        requires
            w <= width,
    ;
}

/// What a block is decoded to is as long as the block says.
pub proof fn law_decoded_block_is_as_long(block: BlockView)
    requires
        block matches BlockView::Raw(b) ==> b.payload.len() == b.original_len,
    ensures
        decoded_block(block) matches Ok(out) ==> out.len() == crate::codec::wire::original_len_of(
            block,
        ),
{
    reveal(decoded_block);
    match block {
        BlockView::Alphabet(b) => crate::codec::alphabet::law_decoded_symbols(b),
        BlockView::SparseAlphabet(b) => crate::codec::sparse::law_sparse_symbols(b),
        BlockView::Trajectory(b) => {
            if decoded_trajectory(b) is Ok {
                let (slots, crumbs) = crate::codec::trajectory::unpacked_path(b)->Ok_0;
                crate::words::lemma_word_bytes(
                    crate::codec::trajectory::rebuilt_words(
                        b.terminals,
                        slots,
                        crumbs,
                        b.steps as int,
                    ),
                );
            }
        },
        BlockView::Operator(b) => {
            if decoded_operator(b) is Ok {
                let (slots, crumbs) = crate::codec::trajectory::unpacked_path(b)->Ok_0;
                let raw = crate::kernel::key::key_word(b.key)->Ok_0;
                crate::words::lemma_word_bytes(
                    crate::codec::operator::operated_words(
                        crate::codec::trajectory::rebuilt_words(
                            b.terminals,
                            slots,
                            crumbs,
                            b.steps as int,
                        ),
                        crate::codec::operator::runtime_of(
                            crate::kernel::key::blueprint_of(raw)->Ok_0,
                        ),
                    ),
                );
            }
        },
        _ => {},
    }
}

} // verus!
