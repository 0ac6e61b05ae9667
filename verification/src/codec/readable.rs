//! Blocks that are read back from the wire as they were written.
use vstd::prelude::*;
use vstd::arithmetic::power2::{lemma2_to64, pow2};
use crate::bitstream::{ceil_div, index_width, law_index_width_is_least, packed_bits};
use crate::codec::cursor::{
    byte_at, counted_at, lemma_byte_read, lemma_byte_stands, lemma_counted_read,
    lemma_counted_stands, lemma_field_read, lemma_field_stands, lemma_number_read,
    lemma_number_stands, lemma_stands_join, lemma_stands_split, lemma_words_read,
    lemma_words_stand, number_at, stands_at, words_at,
};
use crate::codec::parse::{
    alphabet_at, alphabet_fault, block_at, body_at, operator_at, operator_steps_fault,
    operator_streams_fault, raw_at, sparse_at, sparse_fault, spectral_at, trajectory_at,
    trajectory_steps_fault, trajectory_streams_fault,
};
use crate::codec::spectral::corrected;
use crate::codec::wire::{block_wire, body_wire, counted, original_len_of, path_wire};
use crate::kernel::key::{key_word, program_of, steps_of};
use crate::kernel::spectral::predicted_bits;
use crate::model::{mode_of, AlphabetView, BlockView, PathView, RawView, SparseView, SpectralView};
use crate::varint::positions_from;
use crate::words::{le_bytes, lemma_le_bytes_len, word_bytes};

verus! {

/// The block passes every check of the reader.
pub open spec fn readable(block: BlockView) -> bool {
    match block {
        BlockView::Raw(b) => b.payload.len() == b.original_len,
        BlockView::Alphabet(b) => {
            &&& b.alphabet.len() <= 255
            &&& alphabet_fault(b.alphabet, b.bit_width) is None
            &&& b.breadcrumbs.len() == ceil_div(b.original_len as nat * b.bit_width as nat, 8)
            &&& b.breadcrumbs.len() <= u32::MAX
        },
        BlockView::SparseAlphabet(b) => {
            &&& b.dense_alphabet.len() <= 255
            &&& alphabet_fault(b.dense_alphabet, b.dense_bit_width) is None
            &&& b.exception_alphabet.len() <= 255
            &&& alphabet_fault(
                b.exception_alphabet,
                index_width(b.exception_alphabet.len()) as u8,
            ) is None
            &&& sparse_fault(b) is None
            &&& b.dense_breadcrumbs.len() <= u32::MAX
            &&& b.exception_indices.len() <= u32::MAX
            &&& b.exception_positions.len() <= u32::MAX
        },
        BlockView::Spectral(b) => {
            &&& key_word(b.key) matches Ok(raw) && program_of(raw) matches Ok(p) && p.bit_len == 8
                * b.original_len && corrected(
                packed_bits(predicted_bits(p)),
                b.residual,
                p.bit_len as int,
            ) is Ok
            &&& b.residual.len() <= u32::MAX
        },
        BlockView::Trajectory(b) => {
            &&& key_word(b.key) matches Ok(raw) && trajectory_steps_fault(raw, b.steps) is None
            &&& trajectory_streams_fault(b) is None
            &&& path_lengths_fit(b)
        },
        BlockView::Operator(b) => {
            &&& key_word(b.key) is Ok
            &&& operator_steps_fault(b.steps, b.original_len) is None
            &&& operator_streams_fault(b) is None
            &&& path_lengths_fit(b)
        },
        BlockView::Adaptive(_) => false,
    }
}

/// The counts of a path block fit their fields.
pub open spec fn path_lengths_fit(b: PathView) -> bool {
    &&& 0 < b.terminals.len() <= u16::MAX
    &&& b.terminal_indices.len() <= u32::MAX
    &&& b.breadcrumbs.len() <= u32::MAX
}

proof fn lemma_raw_stands(s: Seq<u8>, at: int, b: RawView)
    requires
        readable(BlockView::Raw(b)),
        stands_at(s, at, body_wire(BlockView::Raw(b))),
    ensures
        raw_at(s, at, b.original_len) == Ok::<(RawView, int), Seq<char>>(
            (b, at + body_wire(BlockView::Raw(b)).len()),
        ),
{
    lemma2_to64();
    lemma_counted_stands(s, at, b.payload, 4);
    lemma_field_stands(s, at + 4, b.payload);
}

proof fn lemma_alphabet_stands(s: Seq<u8>, at: int, b: AlphabetView)
    requires
        readable(BlockView::Alphabet(b)),
        stands_at(s, at, body_wire(BlockView::Alphabet(b))),
    ensures
        alphabet_at(s, at, b.original_len) == Ok::<(AlphabetView, int), Seq<char>>(
            (b, at + body_wire(BlockView::Alphabet(b)).len()),
        ),
{
    lemma2_to64();
    let head = le_bytes(b.alphabet.len(), 1);
    let width = seq![b.bit_width];
    let crumbs = counted(b.breadcrumbs, 4);
    lemma_le_bytes_len(b.alphabet.len(), 1);
    lemma_stands_split(s, at, head + width + b.alphabet, crumbs);
    lemma_stands_split(s, at, head + width, b.alphabet);
    lemma_stands_split(s, at, head, width);
    lemma_number_stands(s, at, b.alphabet.len(), 1);
    lemma_single_byte(s, at, b.alphabet.len());
    lemma_byte_stands(s, at + 1, b.bit_width);
    lemma_field_stands(s, at + 2, b.alphabet);
    lemma_counted_stands(s, at + 2 + b.alphabet.len(), b.breadcrumbs, 4);
}

/// A one-byte number is a byte.
proof fn lemma_single_byte(s: Seq<u8>, at: int, n: nat)
    requires
        stands_at(s, at, le_bytes(n, 1)),
        n <= 255,
    ensures
        byte_at(s, at) == Ok::<(u8, int), Seq<char>>((n as u8, at + 1)),
{
    lemma_le_bytes_len(n, 1);
    reveal_with_fuel(le_bytes, 2);
    assert(le_bytes(n, 1) =~= seq![n as u8]);
    lemma_byte_stands(s, at, n as u8);
}

proof fn lemma_sparse_stands(s: Seq<u8>, at: int, b: SparseView)
    requires
        readable(BlockView::SparseAlphabet(b)),
        stands_at(s, at, body_wire(BlockView::SparseAlphabet(b))),
    ensures
        sparse_at(s, at, b.original_len) == Ok::<(SparseView, int), Seq<char>>(
            (b, at + body_wire(BlockView::SparseAlphabet(b)).len()),
        ),
{
    lemma2_to64();
    let head = le_bytes(b.dense_alphabet.len(), 1);
    let width = seq![b.dense_bit_width];
    let w1 = head + width;
    let w2 = w1 + b.dense_alphabet;
    let w3 = w2 + counted(b.dense_breadcrumbs, 4);
    let w4 = w3 + counted(b.exception_alphabet, 1);
    let w5 = w4 + counted(b.exception_indices, 4);
    lemma_le_bytes_len(b.dense_alphabet.len(), 1);
    lemma_stands_split(s, at, w5, counted(b.exception_positions, 4));
    lemma_stands_split(s, at, w4, counted(b.exception_indices, 4));
    lemma_stands_split(s, at, w3, counted(b.exception_alphabet, 1));
    lemma_stands_split(s, at, w2, counted(b.dense_breadcrumbs, 4));
    lemma_stands_split(s, at, w1, b.dense_alphabet);
    lemma_stands_split(s, at, head, width);
    lemma_single_byte(s, at, b.dense_alphabet.len());
    lemma_byte_stands(s, at + 1, b.dense_bit_width);
    lemma_field_stands(s, at + 2, b.dense_alphabet);
    lemma_counted_stands(s, at + w2.len(), b.dense_breadcrumbs, 4);
    lemma_counted_stands(s, at + w3.len(), b.exception_alphabet, 1);
    lemma_counted_stands(s, at + w4.len(), b.exception_indices, 4);
    lemma_counted_stands(s, at + w5.len(), b.exception_positions, 4);
}

proof fn lemma_spectral_stands(s: Seq<u8>, at: int, b: SpectralView)
    requires
        readable(BlockView::Spectral(b)),
        stands_at(s, at, body_wire(BlockView::Spectral(b))),
    ensures
        spectral_at(s, at, b.original_len) == Ok::<(SpectralView, int), Seq<char>>(
            (b, at + body_wire(BlockView::Spectral(b)).len()),
        ),
{
    lemma2_to64();
    lemma_stands_split(s, at, counted(b.key, 2), counted(b.residual, 4));
    lemma_counted_stands(s, at, b.key, 2);
    lemma_counted_stands(s, at + counted(b.key, 2).len(), b.residual, 4);
}

/// The fields of a path block where they stand.
proof fn lemma_path_stands(s: Seq<u8>, at: int, b: PathView)
    requires
        path_lengths_fit(b),
        b.key.len() == 8,
        stands_at(s, at, path_wire(b)),
    ensures
        ({
            let a1 = at + 10;
            let a2 = a1 + 2;
            let a3 = a2 + 8 * b.terminals.len();
            let a4 = a3 + 4 + b.terminal_indices.len();
            let a5 = a4 + 1;
            let a6 = a5 + 4 + b.breadcrumbs.len();
            &&& counted_at(s, at, 2) == Ok::<(Seq<u8>, int), Seq<char>>(
                (b.key, a1),
            )
            &&& number_at(s, a1, 2) == Ok::<(nat, int), Seq<char>>(
                (b.terminals.len(), a2),
            )
            &&& words_at(s, a2, b.terminals.len(), Seq::empty()) == Ok::<
                (Seq<u64>, int),
                Seq<char>,
            >((b.terminals, a3))
            &&& counted_at(s, a3, 4) == Ok::<(Seq<u8>, int), Seq<char>>(
                (b.terminal_indices, a4),
            )
            &&& byte_at(s, a4) == Ok::<(u8, int), Seq<char>>((b.steps, a5))
            &&& counted_at(s, a5, 4) == Ok::<(Seq<u8>, int), Seq<char>>(
                (b.breadcrumbs, a6),
            )
            &&& a6 == at + path_wire(b).len()
        }),
{
    lemma2_to64();
    let w1 = counted(b.key, 2);
    let count = le_bytes(b.terminals.len(), 2);
    let w2 = w1 + count;
    let w3 = w2 + word_bytes(b.terminals);
    let w4 = w3 + counted(b.terminal_indices, 4);
    let w5 = w4 + seq![b.steps];
    lemma_stands_split(s, at, w5, counted(b.breadcrumbs, 4));
    lemma_stands_split(s, at, w4, seq![b.steps]);
    lemma_stands_split(s, at, w3, counted(b.terminal_indices, 4));
    lemma_stands_split(s, at, w2, word_bytes(b.terminals));
    lemma_stands_split(s, at, w1, count);
    lemma_counted_stands(s, at, b.key, 2);
    lemma_number_stands(s, at + w1.len(), b.terminals.len(), 2);
    lemma_words_stand(s, at + w2.len(), b.terminals);
    lemma_counted_stands(s, at + w3.len(), b.terminal_indices, 4);
    lemma_byte_stands(s, at + w4.len(), b.steps);
    lemma_counted_stands(s, at + w5.len(), b.breadcrumbs, 4);
}

proof fn lemma_trajectory_stands(s: Seq<u8>, at: int, b: PathView)
    requires
        readable(BlockView::Trajectory(b)),
        stands_at(s, at, path_wire(b)),
    ensures
        trajectory_at(s, at, b.original_len) == Ok::<(PathView, int), Seq<char>>(
            (b, at + path_wire(b).len()),
        ),
{
    lemma_path_stands(s, at, b);
}

proof fn lemma_operator_stands(s: Seq<u8>, at: int, b: PathView)
    requires
        readable(BlockView::Operator(b)),
        stands_at(s, at, path_wire(b)),
    ensures
        operator_at(s, at, b.original_len) == Ok::<(PathView, int), Seq<char>>(
            (b, at + path_wire(b).len()),
        ),
{
    lemma_path_stands(s, at, b);
}

proof fn lemma_body_stands(s: Seq<u8>, at: int, block: BlockView)
    requires
        readable(block),
        stands_at(s, at, body_wire(block)),
    ensures
        body_at(s, at, mode_of(block), original_len_of(block)) == Ok::<
            (BlockView, int),
            Seq<char>,
        >((block, at + body_wire(block).len())),
{
    match block {
        BlockView::Raw(b) => lemma_raw_stands(s, at, b),
        BlockView::Alphabet(b) => lemma_alphabet_stands(s, at, b),
        BlockView::SparseAlphabet(b) => lemma_sparse_stands(s, at, b),
        BlockView::Spectral(b) => lemma_spectral_stands(s, at, b),
        BlockView::Trajectory(b) => lemma_trajectory_stands(s, at, b),
        BlockView::Operator(b) => lemma_operator_stands(s, at, b),
        BlockView::Adaptive(_) => {},
    }
}

/// A readable block that stands on the wire is read as what it is, and exactly
/// its bytes are used up.
pub proof fn law_block_is_read_back(s: Seq<u8>, at: int, block: BlockView)
    requires
        readable(block),
        stands_at(s, at, block_wire(block)),
    ensures
        block_at(s, at) == Ok::<(BlockView, int), Seq<char>>((block, at + block_wire(block).len())),
{
    reveal(block_at);
    lemma2_to64();
    let mode = seq![mode_of(block)];
    let len = original_len_of(block);
    lemma_stands_split(s, at, mode + le_bytes(len as nat, 4), body_wire(block));
    lemma_stands_split(s, at, mode, le_bytes(len as nat, 4));
    lemma_byte_stands(s, at, mode_of(block));
    lemma_number_stands(s, at + 1, len as nat, 4);
    lemma_body_stands(s, at + 5, block);
}

/// A byte is a one-byte number.
proof fn lemma_byte_number(b: u8)
    ensures
        le_bytes(b as nat, 1) == seq![b],
{
    reveal_with_fuel(le_bytes, 2);
    assert(le_bytes(b as nat, 1) =~= seq![b]);
}

proof fn lemma_raw_read(s: Seq<u8>, at: int, len: u32)
    requires
        raw_at(s, at, len) is Ok,
        0 <= at,
        s.len() <= usize::MAX,
    ensures
        ({
            let (b, end) = raw_at(s, at, len)->Ok_0;
            let block = BlockView::Raw(b);
            &&& b.original_len == len
            &&& readable(block)
            &&& stands_at(s, at, body_wire(block))
            &&& end == at + body_wire(block).len()
        }),
{
    lemma2_to64();
    lemma_number_read(s, at, 4);
    lemma_field_read(s, at + 4, len as int);
    lemma_stands_join(s, at, le_bytes(len as nat, 4), s.subrange(at + 4, at + 4 + len));
}

proof fn lemma_alphabet_read(s: Seq<u8>, at: int, len: u32)
    requires
        alphabet_at(s, at, len) is Ok,
        0 <= at,
        s.len() <= usize::MAX,
    ensures
        ({
            let (b, end) = alphabet_at(s, at, len)->Ok_0;
            let block = BlockView::Alphabet(b);
            &&& b.original_len == len
            &&& readable(block)
            &&& stands_at(s, at, body_wire(block))
            &&& end == at + body_wire(block).len()
        }),
{
    lemma2_to64();
    let b = alphabet_at(s, at, len)->Ok_0.0;
    let n = b.alphabet.len();
    lemma_byte_read(s, at);
    lemma_byte_read(s, at + 1);
    lemma_field_read(s, at + 2, s[at] as int);
    lemma_counted_read(s, at + 2 + n, 4);
    lemma_byte_number(s[at]);
    let w1 = le_bytes(n, 1);
    let w2 = w1 + seq![b.bit_width];
    let w3 = w2 + b.alphabet;
    lemma_stands_join(s, at, w1, seq![b.bit_width]);
    lemma_stands_join(s, at, w2, b.alphabet);
    lemma_stands_join(s, at, w3, counted(b.breadcrumbs, 4));
}

proof fn lemma_sparse_read(s: Seq<u8>, at: int, len: u32)
    requires
        sparse_at(s, at, len) is Ok,
        0 <= at,
        s.len() <= usize::MAX,
    ensures
        ({
            let (b, end) = sparse_at(s, at, len)->Ok_0;
            let block = BlockView::SparseAlphabet(b);
            &&& b.original_len == len
            &&& readable(block)
            &&& stands_at(s, at, body_wire(block))
            &&& end == at + body_wire(block).len()
        }),
{
    lemma2_to64();
    let b = sparse_at(s, at, len)->Ok_0.0;
    let n = b.dense_alphabet.len();
    lemma_byte_read(s, at);
    lemma_byte_read(s, at + 1);
    lemma_field_read(s, at + 2, s[at] as int);
    let a3 = at + 2 + n;
    lemma_counted_read(s, a3, 4);
    let a4 = a3 + 4 + b.dense_breadcrumbs.len();
    lemma_counted_read(s, a4, 1);
    let a5 = a4 + 1 + b.exception_alphabet.len();
    lemma_counted_read(s, a5, 4);
    let a6 = a5 + 4 + b.exception_indices.len();
    lemma_counted_read(s, a6, 4);
    lemma_byte_number(s[at]);
    let w1 = le_bytes(n, 1);
    let w2 = w1 + seq![b.dense_bit_width];
    let w3 = w2 + b.dense_alphabet;
    let w4 = w3 + counted(b.dense_breadcrumbs, 4);
    let w5 = w4 + counted(b.exception_alphabet, 1);
    let w6 = w5 + counted(b.exception_indices, 4);
    lemma_stands_join(s, at, w1, seq![b.dense_bit_width]);
    lemma_stands_join(s, at, w2, b.dense_alphabet);
    lemma_stands_join(s, at, w3, counted(b.dense_breadcrumbs, 4));
    lemma_stands_join(s, at, w4, counted(b.exception_alphabet, 1));
    lemma_stands_join(s, at, w5, counted(b.exception_indices, 4));
    lemma_stands_join(s, at, w6, counted(b.exception_positions, 4));
}

proof fn lemma_spectral_read(s: Seq<u8>, at: int, len: u32)
    requires
        spectral_at(s, at, len) is Ok,
        0 <= at,
        s.len() <= usize::MAX,
    ensures
        ({
            let (b, end) = spectral_at(s, at, len)->Ok_0;
            let block = BlockView::Spectral(b);
            &&& b.original_len == len
            &&& readable(block)
            &&& stands_at(s, at, body_wire(block))
            &&& end == at + body_wire(block).len()
        }),
{
    lemma2_to64();
    let b = spectral_at(s, at, len)->Ok_0.0;
    lemma_counted_read(s, at, 2);
    lemma_counted_read(s, at + 2 + b.key.len(), 4);
    lemma_stands_join(s, at, counted(b.key, 2), counted(b.residual, 4));
}

/// The fields of a path block that were read stand where they were read.
proof fn lemma_path_read(s: Seq<u8>, at: int, b: PathView)
    requires
        0 <= at,
        s.len() <= usize::MAX,
        ({
            let a1 = at + 2 + b.key.len();
            let a2 = a1 + 2;
            let a3 = a2 + 8 * b.terminals.len();
            let a4 = a3 + 4 + b.terminal_indices.len();
            &&& counted_at(s, at, 2) matches Ok((key, _)) && key == b.key
            &&& number_at(s, a1, 2) matches Ok((count, _)) && count > 0 && (words_at(
                s,
                a2,
                count,
                Seq::empty(),
            ) matches Ok((terminals, _)) && terminals == b.terminals)
            &&& counted_at(s, a3, 4) matches Ok((slots, _)) && slots == b.terminal_indices
            &&& byte_at(s, a4) matches Ok((steps, _)) && steps == b.steps
            &&& counted_at(s, a4 + 1, 4) matches Ok((crumbs, _)) && crumbs == b.breadcrumbs
        }),
    ensures
        path_lengths_fit(b),
        stands_at(s, at, path_wire(b)),
        ({
            let a4 = at + 8 + b.key.len() + 8 * b.terminals.len() + b.terminal_indices.len();
            counted_at(s, a4 + 1, 4)->Ok_0.1 == at + path_wire(b).len()
        }),
{
    lemma2_to64();
    let a1 = at + 2 + b.key.len();
    let a2 = a1 + 2;
    let a3 = a2 + 8 * b.terminals.len();
    let a4 = a3 + 4 + b.terminal_indices.len();
    lemma_counted_read(s, at, 2);
    lemma_number_read(s, a1, 2);
    let count = number_at(s, a1, 2)->Ok_0.0;
    let none = Seq::<u64>::empty();
    assert(s.subrange(a2, a2) =~= word_bytes(none));
    lemma_words_read(s, a2, count, none);
    lemma_counted_read(s, a3, 4);
    lemma_byte_read(s, a4);
    lemma_counted_read(s, a4 + 1, 4);
    crate::words::lemma_word_bytes(b.terminals);
    let w1 = counted(b.key, 2);
    let w2 = w1 + le_bytes(b.terminals.len(), 2);
    let w3 = w2 + word_bytes(b.terminals);
    let w4 = w3 + counted(b.terminal_indices, 4);
    let w5 = w4 + seq![b.steps];
    lemma_stands_join(s, at, w1, le_bytes(b.terminals.len(), 2));
    lemma_stands_join(s, at, w2, word_bytes(b.terminals));
    lemma_stands_join(s, at, w3, counted(b.terminal_indices, 4));
    lemma_stands_join(s, at, w4, seq![b.steps]);
    lemma_stands_join(s, at, w5, counted(b.breadcrumbs, 4));
}

/// Where the fields of a path block begin.
proof fn lemma_path_places(s: Seq<u8>, at: int)
    requires
        0 <= at,
        s.len() <= usize::MAX,
    ensures
        counted_at(s, at, 2) matches Ok((key, a1)) ==> {
            &&& a1 == at + 2 + key.len()
            &&& number_at(s, a1, 2) matches Ok((count, a2)) ==> {
                &&& a2 == a1 + 2
                &&& words_at(s, a2, count, Seq::empty()) matches Ok((terminals, a3)) ==> {
                    &&& a3 == a2 + 8 * terminals.len()
                    &&& counted_at(s, a3, 4) matches Ok((slots, a4)) ==> {
                        &&& a4 == a3 + 4 + slots.len()
                        &&& byte_at(s, a4) matches Ok((steps, a5)) ==> a5 == a4 + 1
                    }
                }
            }
        },
{
    if counted_at(s, at, 2) is Ok {
        lemma_counted_read(s, at, 2);
        let a1 = counted_at(s, at, 2)->Ok_0.1;
        if number_at(s, a1, 2) is Ok {
            lemma_number_read(s, a1, 2);
            let (count, a2) = number_at(s, a1, 2)->Ok_0;
            let none = Seq::<u64>::empty();
            if words_at(s, a2, count, none) is Ok {
                assert(s.subrange(a2, a2) =~= word_bytes(none));
                lemma_words_read(s, a2, count, none);
                let a3 = words_at(s, a2, count, none)->Ok_0.1;
                if counted_at(s, a3, 4) is Ok {
                    lemma_counted_read(s, a3, 4);
                }
            }
        }
    }
}

proof fn lemma_trajectory_read(s: Seq<u8>, at: int, len: u32)
    requires
        trajectory_at(s, at, len) is Ok,
        0 <= at,
        s.len() <= usize::MAX,
    ensures
        ({
            let (b, end) = trajectory_at(s, at, len)->Ok_0;
            &&& b.original_len == len
            &&& readable(BlockView::Trajectory(b))
            &&& stands_at(s, at, path_wire(b))
            &&& end == at + path_wire(b).len()
        }),
{
    lemma_path_places(s, at);
    lemma_path_read(s, at, trajectory_at(s, at, len)->Ok_0.0);
}

proof fn lemma_operator_read(s: Seq<u8>, at: int, len: u32)
    requires
        operator_at(s, at, len) is Ok,
        0 <= at,
        s.len() <= usize::MAX,
    ensures
        ({
            let (b, end) = operator_at(s, at, len)->Ok_0;
            &&& b.original_len == len
            &&& readable(BlockView::Operator(b))
            &&& stands_at(s, at, path_wire(b))
            &&& end == at + path_wire(b).len()
        }),
{
    lemma_path_places(s, at);
    lemma_path_read(s, at, operator_at(s, at, len)->Ok_0.0);
}

/// A block that was read is readable, stands on the wire where it was read,
/// and exactly its bytes were used up.
pub proof fn law_read_block_is_written(s: Seq<u8>, at: int)
    requires
        block_at(s, at) is Ok,
        0 <= at,
        s.len() <= usize::MAX,
    ensures
        readable(block_at(s, at)->Ok_0.0),
        stands_at(s, at, block_wire(block_at(s, at)->Ok_0.0)),
        block_at(s, at)->Ok_0.1 == at + block_wire(block_at(s, at)->Ok_0.0).len(),
{
    reveal(block_at);
    lemma2_to64();
    lemma_byte_read(s, at);
    lemma_number_read(s, at + 1, 4);
    let mode = s[at];
    let len = number_at(s, at + 1, 4)->Ok_0.0 as u32;
    let block = block_at(s, at)->Ok_0.0;
    if mode == 0 {
        lemma_raw_read(s, at + 5, len);
    } else if mode == 1 {
        lemma_spectral_read(s, at + 5, len);
    } else if mode == 2 {
        lemma_alphabet_read(s, at + 5, len);
    } else if mode == 3 {
        lemma_trajectory_read(s, at + 5, len);
    } else if mode == 4 {
        lemma_operator_read(s, at + 5, len);
    } else {
        lemma_sparse_read(s, at + 5, len);
    }
    lemma_stands_join(s, at, seq![mode], le_bytes(len as nat, 4));
    lemma_stands_join(s, at, seq![mode] + le_bytes(len as nat, 4), body_wire(block));
}

/// An alphabet that was read is not empty, ascends, and is told in as few bits
/// as tell its bytes apart.
pub open spec fn sound_alphabet(alphabet: Seq<u8>, width: nat) -> bool {
    &&& alphabet.len() >= 1
    &&& forall|i: int, j: int|
        0 <= i < j < alphabet.len() ==> #[trigger] alphabet[i] < #[trigger] alphabet[j]
    &&& forall|k: nat| alphabet.len() <= #[trigger] pow2(k) <==> width <= k
}

/// A path that was read has one place in its palette for every word, one to 63
/// steps, and one crumb for every word and step.
pub open spec fn sound_path(b: PathView) -> bool {
    let count = b.original_len as nat / 8;
    &&& b.original_len % 8 == 0
    &&& 1 <= b.steps <= 63
    &&& b.terminals.len() >= 1
    &&& b.key.len() == 8
    &&& b.terminal_indices.len() == ceil_div(count * index_width(b.terminals.len()), 8)
    &&& b.breadcrumbs.len() == ceil_div(count * b.steps as nat, 8)
}

proof fn lemma_sound_alphabet(alphabet: Seq<u8>, width: u8)
    requires
        alphabet_fault(alphabet, width) is None,
    ensures
        sound_alphabet(alphabet, width as nat),
{
    assert forall|k: nat| alphabet.len() <= #[trigger] pow2(k) <==> width <= k by {
        law_index_width_is_least(alphabet.len(), k);
    }
}

/// A block that was read makes sense: a raw one is as long as it says, alphabets
/// are sound, the streams are just as long as they must be, a spectral key is
/// for the length of the block, and a trajectory key states the steps.
pub proof fn law_read_block_is_sound(s: Seq<u8>, at: int)
    requires
        block_at(s, at) is Ok,
        0 <= at,
        s.len() <= usize::MAX,
    ensures
        match block_at(s, at)->Ok_0.0 {
            BlockView::Raw(b) => b.payload.len() == b.original_len,
            BlockView::Alphabet(b) => sound_alphabet(b.alphabet, b.bit_width as nat)
                && b.breadcrumbs.len() == ceil_div(b.original_len as nat * b.bit_width as nat, 8),
            BlockView::SparseAlphabet(b) => {
                &&& sound_alphabet(b.dense_alphabet, b.dense_bit_width as nat)
                &&& sound_alphabet(b.exception_alphabet, index_width(b.exception_alphabet.len()))
                &&& positions_from(b.exception_positions, 0, Seq::empty()) matches Ok(p) && {
                    &&& p.len() <= b.original_len
                    &&& forall|i: int| 0 <= i < p.len() ==> #[trigger] p[i] < b.original_len
                    &&& b.dense_breadcrumbs.len() == ceil_div(
                        (b.original_len - p.len()) as nat * b.dense_bit_width as nat,
                        8,
                    )
                    &&& b.exception_indices.len() == ceil_div(
                        p.len() * index_width(b.exception_alphabet.len()),
                        8,
                    )
                }
            },
            BlockView::Spectral(b) => key_word(b.key) matches Ok(raw) && program_of(
                raw,
            ) matches Ok(p) && p.bit_len == 8 * b.original_len,
            BlockView::Trajectory(b) => sound_path(b) && (key_word(b.key) matches Ok(raw)
                && steps_of(raw) == Ok::<u8, Seq<char>>(b.steps)),
            BlockView::Operator(b) => sound_path(b),
            BlockView::Adaptive(_) => false,
        },
{
    law_read_block_is_written(s, at);
    match block_at(s, at)->Ok_0.0 {
        BlockView::Alphabet(b) => {
            lemma_sound_alphabet(b.alphabet, b.bit_width);
        },
        BlockView::SparseAlphabet(b) => {
            lemma_sound_alphabet(b.dense_alphabet, b.dense_bit_width);
            let n = b.exception_alphabet.len();
            law_index_width_is_least(n, 8);
            lemma2_to64();
            lemma_sound_alphabet(b.exception_alphabet, index_width(n) as u8);
        },
        _ => {},
    }
}

} // verus!
