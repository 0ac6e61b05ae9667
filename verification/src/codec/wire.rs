//! How blocks are written.
use vstd::prelude::*;
use crate::model::{mode_of, BlockEncoding, BlockView, PathView};
use crate::words::{le_bytes, lemma_le_bytes_len, lemma_word_bytes, push_le, push_u32, push_u64, word_bytes};

verus! {

/// Bytes behind their length, which takes `width` bytes.
pub open spec fn counted(bytes: Seq<u8>, width: nat) -> Seq<u8> {
    le_bytes(bytes.len(), width) + bytes
}

/// What follows the length of a trajectory or operator block.
pub open spec fn path_wire(p: PathView) -> Seq<u8> {
    counted(p.key, 2) + le_bytes(p.terminals.len(), 2) + word_bytes(p.terminals) + counted(
        p.terminal_indices,
        4,
    ) + seq![p.steps] + counted(p.breadcrumbs, 4)
}

/// What follows the length of a block.
pub open spec fn body_wire(block: BlockView) -> Seq<u8> {
    match block {
        BlockView::Raw(b) => counted(b.payload, 4),
        BlockView::Spectral(b) => counted(b.key, 2) + counted(b.residual, 4),
        BlockView::Alphabet(b) => le_bytes(b.alphabet.len(), 1) + seq![b.bit_width] + b.alphabet
            + counted(b.breadcrumbs, 4),
        BlockView::Trajectory(p) => path_wire(p),
        BlockView::Operator(p) => path_wire(p),
        BlockView::SparseAlphabet(b) => le_bytes(b.dense_alphabet.len(), 1) + seq![
            b.dense_bit_width,
        ] + b.dense_alphabet + counted(b.dense_breadcrumbs, 4) + counted(b.exception_alphabet, 1)
            + counted(b.exception_indices, 4) + counted(b.exception_positions, 4),
        BlockView::Adaptive(b) => seq![0xADu8] + le_bytes(b.meta_k as nat, 8) + counted(b.v, 4),
    }
}

/// The length of the original block.
pub open spec fn original_len_of(block: BlockView) -> u32 {
    match block {
        BlockView::Raw(b) => b.original_len,
        BlockView::Spectral(b) => b.original_len,
        BlockView::Alphabet(b) => b.original_len,
        BlockView::Trajectory(b) => b.original_len,
        BlockView::Operator(b) => b.original_len,
        BlockView::SparseAlphabet(b) => b.original_len,
        BlockView::Adaptive(b) => b.original_len,
    }
}

/// A block as it is written.
pub open spec fn block_wire(block: BlockView) -> Seq<u8> {
    seq![mode_of(block)] + le_bytes(original_len_of(block) as nat, 4) + body_wire(block)
}

/// Appends bytes behind their length.
fn push_counted(out: &mut Vec<u8>, bytes: &Vec<u8>, width: usize)
    ensures
        final(out)@ == old(out)@ + counted(bytes@, width as nat),
{
    push_le(out, bytes.len() as u64, width);
    out.extend_from_slice(bytes.as_slice());
    assert(out@ =~= old(out)@ + counted(bytes@, width as nat));
}

fn push_words(out: &mut Vec<u8>, words: &Vec<u64>)
    ensures
        final(out)@ == old(out)@ + word_bytes(words@),
{
    let n: usize = words.len();
    assert(word_bytes(words@.take(0)) =~= Seq::<u8>::empty());
    assert(out@ =~= old(out)@ + word_bytes(words@.take(0)));
    for i in 0..n
        invariant
            n == words@.len(),
            out@ == old(out)@ + word_bytes(words@.take(i as int)),
    {
        assert(words@.take(i + 1).drop_last() =~= words@.take(i as int));
        push_u64(out, words[i]);
        assert(out@ =~= old(out)@ + word_bytes(words@.take(i + 1)));
    }
    assert(words@.take(n as int) =~= words@);
}

fn push_path(
    out: &mut Vec<u8>,
    key: &Vec<u8>,
    terminals: &Vec<u64>,
    terminal_indices: &Vec<u8>,
    steps: u8,
    breadcrumbs: &Vec<u8>,
)
    ensures
        forall|original_len: u32|
            final(out)@ == old(out)@ + #[trigger] path_wire(
                PathView {
                    original_len,
                    key: key@,
                    terminals: terminals@,
                    terminal_indices: terminal_indices@,
                    steps,
                    breadcrumbs: breadcrumbs@,
                },
            ),
{
    push_counted(out, key, 2);
    push_le(out, terminals.len() as u64, 2);
    push_words(out, terminals);
    push_counted(out, terminal_indices, 4);
    out.push(steps);
    push_counted(out, breadcrumbs, 4);
    assert forall|original_len: u32| out@ == old(out)@ + #[trigger] path_wire(
        PathView {
            original_len,
            key: key@,
            terminals: terminals@,
            terminal_indices: terminal_indices@,
            steps,
            breadcrumbs: breadcrumbs@,
        },
    ) by {
        assert(out@ =~= old(out)@ + path_wire(
            PathView {
                original_len,
                key: key@,
                terminals: terminals@,
                terminal_indices: terminal_indices@,
                steps,
                breadcrumbs: breadcrumbs@,
            },
        ));
    }
}

/// Writes a block.
pub fn append_serialized_block(out: &mut Vec<u8>, block: &BlockEncoding)
    ensures
        final(out)@ == old(out)@ + block_wire(block@),
{
    out.push(block.mode());
    match block {
        BlockEncoding::Raw(raw) => {
            push_u32(out, raw.original_len);
            push_counted(out, &raw.payload, 4);
        },
        BlockEncoding::Alphabet(alpha) => {
            push_u32(out, alpha.original_len);
            push_le(out, alpha.alphabet.len() as u64, 1);
            out.push(alpha.bit_width);
            out.extend_from_slice(alpha.alphabet.as_slice());
            push_counted(out, &alpha.breadcrumbs, 4);
        },
        BlockEncoding::SparseAlphabet(alpha) => {
            push_u32(out, alpha.original_len);
            push_le(out, alpha.dense_alphabet.len() as u64, 1);
            out.push(alpha.dense_bit_width);
            out.extend_from_slice(alpha.dense_alphabet.as_slice());
            push_counted(out, &alpha.dense_breadcrumbs, 4);
            push_counted(out, &alpha.exception_alphabet, 1);
            push_counted(out, &alpha.exception_indices, 4);
            push_counted(out, &alpha.exception_positions, 4);
        },
        BlockEncoding::Spectral(spectral) => {
            push_u32(out, spectral.original_len);
            push_counted(out, &spectral.key, 2);
            push_counted(out, &spectral.residual, 4);
        },
        BlockEncoding::Trajectory(t) => {
            push_u32(out, t.original_len);
            push_path(out, &t.key, &t.terminals, &t.terminal_indices, t.steps, &t.breadcrumbs);
            assert(out@ =~= old(out)@ + block_wire(block@));
        },
        BlockEncoding::Operator(o) => {
            push_u32(out, o.original_len);
            push_path(out, &o.key, &o.terminals, &o.terminal_indices, o.steps, &o.breadcrumbs);
            assert(out@ =~= old(out)@ + block_wire(block@));
        },
        BlockEncoding::Adaptive(a) => {
            push_u32(out, a.original_len);
            out.push(0xAD);
            push_u64(out, a.meta_k);
            push_counted(out, &a.v, 4);
        },
    }
    assert(out@ =~= old(out)@ + block_wire(block@));
}

/// The length of a written trajectory or operator block.
pub open spec fn path_size(
    key: nat,
    terminals: nat,
    terminal_indices: nat,
    breadcrumbs: nat,
) -> nat {
    18 + key + 8 * terminals + terminal_indices + breadcrumbs
}

/// The length of a written block.
pub open spec fn block_size(block: BlockView) -> nat {
    match block {
        BlockView::Raw(b) => 9 + b.payload.len(),
        BlockView::Spectral(b) => 11 + b.key.len() + b.residual.len(),
        BlockView::Alphabet(b) => 11 + b.alphabet.len() + b.breadcrumbs.len(),
        BlockView::Trajectory(p) => path_size(
            p.key.len(),
            p.terminals.len(),
            p.terminal_indices.len(),
            p.breadcrumbs.len(),
        ),
        BlockView::Operator(p) => path_size(
            p.key.len(),
            p.terminals.len(),
            p.terminal_indices.len(),
            p.breadcrumbs.len(),
        ),
        BlockView::SparseAlphabet(b) => 20 + b.dense_alphabet.len() + b.dense_breadcrumbs.len()
            + b.exception_alphabet.len() + b.exception_indices.len() + b.exception_positions.len(),
        BlockView::Adaptive(b) => 18 + b.v.len(),
    }
}

/// The stated length is the length of what is written.
pub proof fn law_block_size(block: BlockView)
    ensures
        block_wire(block).len() == block_size(block),
{
    lemma_le_bytes_len(original_len_of(block) as nat, 4);
    match block {
        BlockView::Raw(b) => {
            lemma_le_bytes_len(b.payload.len(), 4);
        },
        BlockView::Spectral(b) => {
            lemma_le_bytes_len(b.key.len(), 2);
            lemma_le_bytes_len(b.residual.len(), 4);
        },
        BlockView::Alphabet(b) => {
            lemma_le_bytes_len(b.alphabet.len(), 1);
            lemma_le_bytes_len(b.breadcrumbs.len(), 4);
        },
        BlockView::Trajectory(p) => {
            lemma_path_len(p);
        },
        BlockView::Operator(p) => {
            lemma_path_len(p);
        },
        BlockView::SparseAlphabet(b) => {
            lemma_le_bytes_len(b.dense_alphabet.len(), 1);
            lemma_le_bytes_len(b.dense_breadcrumbs.len(), 4);
            lemma_le_bytes_len(b.exception_alphabet.len(), 1);
            lemma_le_bytes_len(b.exception_indices.len(), 4);
            lemma_le_bytes_len(b.exception_positions.len(), 4);
        },
        BlockView::Adaptive(b) => {
            lemma_le_bytes_len(b.meta_k as nat, 8);
            lemma_le_bytes_len(b.v.len(), 4);
        },
    }
}

proof fn lemma_path_len(p: PathView)
    ensures
        path_wire(p).len() + 5 == path_size(
            p.key.len(),
            p.terminals.len(),
            p.terminal_indices.len(),
            p.breadcrumbs.len(),
        ),
{
    lemma_le_bytes_len(p.key.len(), 2);
    lemma_le_bytes_len(p.terminals.len(), 2);
    lemma_word_bytes(p.terminals);
    lemma_le_bytes_len(p.terminal_indices.len(), 4);
    lemma_le_bytes_len(p.breadcrumbs.len(), 4);
}

/// The length a block will have when it is written.
pub fn encoded_size_of(block: &BlockEncoding) -> (size: usize)
    requires
        block_size(block@) <= usize::MAX,
    ensures
        size == block_wire(block@).len(),
        size == block_size(block@),
{
    wire_size(block) as usize
}

/// The length a block will have when it is written, however large.
pub(crate) fn wire_size(block: &BlockEncoding) -> (size: u128)
    ensures
        size == block_wire(block@).len(),
        size == block_size(block@),
{
    proof {
        law_block_size(block@);
    }
    match block {
        BlockEncoding::Raw(b) => 9 + b.payload.len() as u128,
        BlockEncoding::Spectral(b) => 11 + b.key.len() as u128 + b.residual.len() as u128,
        BlockEncoding::Alphabet(b) => 11 + b.alphabet.len() as u128 + b.breadcrumbs.len() as u128,
        BlockEncoding::Trajectory(p) => 18 + p.key.len() as u128 + 8 * p.terminals.len() as u128
            + p.terminal_indices.len() as u128 + p.breadcrumbs.len() as u128,
        BlockEncoding::Operator(p) => 18 + p.key.len() as u128 + 8 * p.terminals.len() as u128
            + p.terminal_indices.len() as u128 + p.breadcrumbs.len() as u128,
        BlockEncoding::SparseAlphabet(b) => 20 + b.dense_alphabet.len() as u128
            + b.dense_breadcrumbs.len() as u128 + b.exception_alphabet.len() as u128
            + b.exception_indices.len() as u128 + b.exception_positions.len() as u128,
        BlockEncoding::Adaptive(b) => 18 + b.v.len() as u128,
    }
}

} // verus!
