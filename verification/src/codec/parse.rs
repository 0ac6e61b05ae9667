//! Reading blocks back from the wire.
use vstd::prelude::*;
use crate::bitstream::{bit_width_for_cardinality, ceil_div, ceil_div_u64, index_width, packed_bits};
use crate::codec::alphabet::sorted_symbols;
use crate::codec::cursor::{
    byte_at, counted_at, field_at, number_at, read_counted, read_u16, read_u32, read_u8, read_vec,
    read_words, words_at,
};
use crate::codec::spectral::{apply_spectral_exceptions, corrected, synthesise_spectral_bytes};
use crate::kernel::key::{key_word, program_of, steps_of, MagicKey, MagicKeyKind};
use crate::kernel::spectral::predicted_bits;
use crate::model::{
    AlphabetBlock, AlphabetView, BlockEncoding, BlockView, OperatorBlock, PathView, RawBlock,
    RawView, SparseAlphabetBlock, SparseView, SpectralBlock, SpectralView, TrajectoryBlock,
};
use crate::text::{decimal, numbered};
use crate::varint::{decode_position_deltas, positions_from};

verus! {

/// The raw block whose body stands at `at`.
pub open spec fn raw_at(s: Seq<u8>, at: int, len: u32) -> Result<(RawView, int), Seq<char>> {
    match number_at(s, at, 4) {
        Err(e) => Err(e),
        Ok((n, next)) => if n != len {
            Err("raw payload length does not match original length"@)
        } else {
            match field_at(s, next, n as int) {
                Err(e) => Err(e),
                Ok((payload, end)) => Ok((RawView { original_len: len, payload }, end)),
            }
        },
    }
}

/// What is wrong with an alphabet and the width of its indices, if anything.
pub open spec fn alphabet_fault(alphabet: Seq<u8>, width: u8) -> Option<Seq<char>> {
    if alphabet.len() == 0 {
        Some("alphabet must not be empty"@)
    } else if !sorted_symbols(alphabet) {
        Some("alphabet must be sorted and contain unique bytes"@)
    } else if width != index_width(alphabet.len()) {
        Some("alphabet bit width is not canonical"@)
    } else {
        None
    }
}

/// Checks an alphabet.
pub fn validate_alphabet(alphabet: &[u8], bit_width: u8) -> (r: Result<(), String>)
    ensures
        match r {
            Ok(_) => alphabet_fault(alphabet@, bit_width) is None,
            Err(e) => alphabet_fault(alphabet@, bit_width) == Some(e@),
        },
{
    let n: usize = alphabet.len();
    if n == 0 {
        return Err("alphabet must not be empty".to_string());
    }
    for i in 1..n
        invariant
            n == alphabet@.len(),
            forall|a: int, b: int|
                0 <= a < b < i ==> #[trigger] alphabet@[a] < #[trigger] alphabet@[b],
    {
        if alphabet[i - 1] >= alphabet[i] {
            assert(!(alphabet@[i - 1] < alphabet@[i as int]));
            return Err("alphabet must be sorted and contain unique bytes".to_string());
        }
        assert forall|a: int, b: int| 0 <= a < b < i + 1 implies #[trigger] alphabet@[a]
            < #[trigger] alphabet@[b] by {
            if b == i && a < i - 1 {
                assert(alphabet@[a] < alphabet@[i - 1]);
            }
        }
    }
    if bit_width != bit_width_for_cardinality(n) {
        return Err("alphabet bit width is not canonical".to_string());
    }
    Ok(())
}

/// The alphabet block whose body stands at `at`.
pub open spec fn alphabet_at(s: Seq<u8>, at: int, len: u32) -> Result<
    (AlphabetView, int),
    Seq<char>,
> {
    match byte_at(s, at) {
        Err(e) => Err(e),
        Ok((n, a1)) => match byte_at(s, a1) {
            Err(e) => Err(e),
            Ok((width, a2)) => match field_at(s, a2, n as int) {
                Err(e) => Err(e),
                Ok((alphabet, a3)) => match alphabet_fault(alphabet, width) {
                    Some(e) => Err(e),
                    None => match counted_at(s, a3, 4) {
                        Err(e) => Err(e),
                        Ok((breadcrumbs, a4)) => if breadcrumbs.len() != ceil_div(
                            len as nat * width as nat,
                            8,
                        ) {
                            Err("alphabet breadcrumb payload length is not canonical"@)
                        } else {
                            Ok(
                                (
                                    AlphabetView {
                                        original_len: len,
                                        alphabet,
                                        bit_width: width,
                                        breadcrumbs,
                                    },
                                    a4,
                                ),
                            )
                        },
                    },
                },
            },
        },
    }
}

/// What is wrong with the streams of a sparse alphabet block, if anything.
pub open spec fn sparse_fault(b: SparseView) -> Option<Seq<char>> {
    match positions_from(b.exception_positions, 0, Seq::empty()) {
        Err(e) => Some(e),
        Ok(positions) => if exists|i: int|
            0 <= i < positions.len() && #[trigger] positions[i] >= b.original_len {
            Some("sparse alphabet exception position is outside the block"@)
        } else if positions.len() > b.original_len {
            Some("sparse alphabet dense count underflow"@)
        } else if b.dense_breadcrumbs.len() != ceil_div(
            (b.original_len - positions.len()) as nat * b.dense_bit_width as nat,
            8,
        ) {
            Some("sparse alphabet dense breadcrumb payload length is not canonical"@)
        } else if b.exception_indices.len() != ceil_div(
            positions.len() * index_width(b.exception_alphabet.len()),
            8,
        ) {
            Some("sparse alphabet exception index payload length is not canonical"@)
        } else {
            None
        },
    }
}

/// The sparse alphabet block whose body stands at `at`.
pub open spec fn sparse_at(s: Seq<u8>, at: int, len: u32) -> Result<(SparseView, int), Seq<char>> {
    match byte_at(s, at) {
        Err(e) => Err(e),
        Ok((n, a1)) => match byte_at(s, a1) {
            Err(e) => Err(e),
            Ok((width, a2)) => match field_at(s, a2, n as int) {
                Err(e) => Err(e),
                Ok((dense, a3)) => match alphabet_fault(dense, width) {
                    Some(e) => Err(e),
                    None => match counted_at(s, a3, 4) {
                        Err(e) => Err(e),
                        Ok((crumbs, a4)) => match counted_at(s, a4, 1) {
                            Err(e) => Err(e),
                            Ok((exceptions, a5)) => match alphabet_fault(
                                exceptions,
                                index_width(exceptions.len()) as u8,
                            ) {
                                Some(e) => Err(e),
                                None => match counted_at(s, a5, 4) {
                                    Err(e) => Err(e),
                                    Ok((indices, a6)) => match counted_at(s, a6, 4) {
                                        Err(e) => Err(e),
                                        Ok((positions, a7)) => {
                                            let b = SparseView {
                                                original_len: len,
                                                dense_alphabet: dense,
                                                dense_bit_width: width,
                                                dense_breadcrumbs: crumbs,
                                                exception_alphabet: exceptions,
                                                exception_indices: indices,
                                                exception_positions: positions,
                                            };
                                            match sparse_fault(b) {
                                                Some(e) => Err(e),
                                                None => Ok((b, a7)),
                                            }
                                        },
                                    },
                                },
                            },
                        },
                    },
                },
            },
        },
    }
}

/// The spectral block whose body stands at `at`.
pub open spec fn spectral_at(s: Seq<u8>, at: int, len: u32) -> Result<
    (SpectralView, int),
    Seq<char>,
> {
    match counted_at(s, at, 2) {
        Err(e) => Err(e),
        Ok((key, a1)) => match key_word(key) {
            Err(e) => Err(e),
            Ok(raw) => match program_of(raw) {
                Err(e) => Err(e),
                Ok(p) => if p.bit_len != 8 * len {
                    Err("spectral K block size does not match the record"@)
                } else {
                    match counted_at(s, a1, 4) {
                        Err(e) => Err(e),
                        Ok((residual, a2)) => match corrected(
                            packed_bits(predicted_bits(p)),
                            residual,
                            p.bit_len as int,
                        ) {
                            Err(e) => Err(e),
                            Ok(_) => Ok((SpectralView { original_len: len, key, residual }, a2)),
                        },
                    }
                },
            },
        },
    }
}

/// What is wrong with the streams of a path block, if anything.
pub open spec fn path_fault(
    b: PathView,
    slot_fault: Seq<char>,
    overflow_fault: Seq<char>,
    crumb_fault: Seq<char>,
) -> Option<Seq<char>> {
    let word_count = b.original_len as nat / 8;
    if b.terminal_indices.len() != ceil_div(word_count * index_width(b.terminals.len()), 8) {
        Some(slot_fault)
    } else if word_count * b.steps as nat > usize::MAX {
        Some(overflow_fault)
    } else if b.breadcrumbs.len() != ceil_div(word_count * b.steps as nat, 8) {
        Some(crumb_fault)
    } else {
        None
    }
}

/// What is wrong with the step count of a trajectory block, if anything.
pub open spec fn trajectory_steps_fault(raw: u64, steps: u8) -> Option<Seq<char>> {
    if !(1 <= steps < 64) {
        Some("trajectory K does not match a valid step count"@)
    } else {
        match steps_of(raw) {
            Err(e) => Some(e),
            Ok(own) => if own != steps {
                Some("trajectory K does not match a valid step count"@)
            } else {
                None
            },
        }
    }
}

/// What is wrong with the streams of a trajectory block, if anything.
pub open spec fn trajectory_streams_fault(b: PathView) -> Option<Seq<char>> {
    if b.original_len % 8 != 0 {
        Some("trajectory terminal index payload length is not canonical"@)
    } else {
        path_fault(
            b,
            "trajectory terminal index payload length is not canonical"@,
            "trajectory breadcrumb length overflow"@,
            "trajectory parity breadcrumb payload length is not canonical"@,
        )
    }
}

/// The trajectory block whose body stands at `at`.
pub open spec fn trajectory_at(s: Seq<u8>, at: int, len: u32) -> Result<(PathView, int), Seq<char>> {
    match counted_at(s, at, 2) {
        Err(e) => Err(e),
        Ok((key, a1)) => match key_word(key) {
            Err(e) => Err(e),
            Ok(raw) => match number_at(s, a1, 2) {
                Err(e) => Err(e),
                Ok((count, a2)) => if count == 0 {
                    Err("trajectory terminal palette must not be empty"@)
                } else {
                    match words_at(s, a2, count, Seq::empty()) {
                        Err(e) => Err(e),
                        Ok((terminals, a3)) => match counted_at(s, a3, 4) {
                            Err(e) => Err(e),
                            Ok((terminal_indices, a4)) => match byte_at(s, a4) {
                                Err(e) => Err(e),
                                Ok((steps, a5)) => match trajectory_steps_fault(raw, steps) {
                                    Some(e) => Err(e),
                                    None => match counted_at(s, a5, 4) {
                                        Err(e) => Err(e),
                                        Ok((breadcrumbs, a6)) => {
                                            let b = PathView {
                                                original_len: len,
                                                key,
                                                terminals,
                                                terminal_indices,
                                                steps,
                                                breadcrumbs,
                                            };
                                            match trajectory_streams_fault(b) {
                                                Some(e) => Err(e),
                                                None => Ok((b, a6)),
                                            }
                                        },
                                    },
                                },
                            },
                        },
                    }
                },
            },
        },
    }
}

/// What is wrong with the step count or the length of an operator block, if
/// anything.
pub open spec fn operator_steps_fault(steps: u8, len: u32) -> Option<Seq<char>> {
    if !(1 <= steps < 64) {
        Some("operator parity step count must be in 1..64"@)
    } else if len % 8 != 0 {
        Some("operator block length must be divisible by 8"@)
    } else {
        None
    }
}

/// What is wrong with the streams of an operator block, if anything.
pub open spec fn operator_streams_fault(b: PathView) -> Option<Seq<char>> {
    path_fault(
        b,
        "operator terminal index payload length is not canonical"@,
        "operator breadcrumb length overflow"@,
        "operator parity breadcrumb payload length is not canonical"@,
    )
}

/// The operator block whose body stands at `at`.
pub open spec fn operator_at(s: Seq<u8>, at: int, len: u32) -> Result<(PathView, int), Seq<char>> {
    match counted_at(s, at, 2) {
        Err(e) => Err(e),
        Ok((key, a1)) => match key_word(key) {
            Err(e) => Err(e),
            Ok(_) => match number_at(s, a1, 2) {
                Err(e) => Err(e),
                Ok((count, a2)) => if count == 0 {
                    Err("operator terminal palette must not be empty"@)
                } else {
                    match words_at(s, a2, count, Seq::empty()) {
                        Err(e) => Err(e),
                        Ok((terminals, a3)) => match counted_at(s, a3, 4) {
                            Err(e) => Err(e),
                            Ok((terminal_indices, a4)) => match byte_at(s, a4) {
                                Err(e) => Err(e),
                                Ok((steps, a5)) => match operator_steps_fault(steps, len) {
                                    Some(e) => Err(e),
                                    None => match counted_at(s, a5, 4) {
                                        Err(e) => Err(e),
                                        Ok((breadcrumbs, a6)) => {
                                            let b = PathView {
                                                original_len: len,
                                                key,
                                                terminals,
                                                terminal_indices,
                                                steps,
                                                breadcrumbs,
                                            };
                                            match operator_streams_fault(b) {
                                                Some(e) => Err(e),
                                                None => Ok((b, a6)),
                                            }
                                        },
                                    },
                                },
                            },
                        },
                    }
                },
            },
        },
    }
}

/// The block of the given mode and length whose body stands at `at`.
pub open spec fn body_at(s: Seq<u8>, at: int, mode: u8, len: u32) -> Result<
    (BlockView, int),
    Seq<char>,
> {
    if mode == 0 {
        match raw_at(s, at, len) {
            Ok((b, end)) => Ok((BlockView::Raw(b), end)),
            Err(e) => Err(e),
        }
    } else if mode == 1 {
        match spectral_at(s, at, len) {
            Ok((b, end)) => Ok((BlockView::Spectral(b), end)),
            Err(e) => Err(e),
        }
    } else if mode == 2 {
        match alphabet_at(s, at, len) {
            Ok((b, end)) => Ok((BlockView::Alphabet(b), end)),
            Err(e) => Err(e),
        }
    } else if mode == 3 {
        match trajectory_at(s, at, len) {
            Ok((b, end)) => Ok((BlockView::Trajectory(b), end)),
            Err(e) => Err(e),
        }
    } else if mode == 4 {
        match operator_at(s, at, len) {
            Ok((b, end)) => Ok((BlockView::Operator(b), end)),
            Err(e) => Err(e),
        }
    } else if mode == 5 {
        match sparse_at(s, at, len) {
            Ok((b, end)) => Ok((BlockView::SparseAlphabet(b), end)),
            Err(e) => Err(e),
        }
    } else {
        Err("unknown block mode: "@ + decimal(mode as nat))
    }
}

/// The block that stands at `at`, and the place behind it.
#[verifier::opaque]
pub open spec fn block_at(s: Seq<u8>, at: int) -> Result<(BlockView, int), Seq<char>> {
    match byte_at(s, at) {
        Err(e) => Err(e),
        Ok((mode, a1)) => match number_at(s, a1, 4) {
            Err(e) => Err(e),
            Ok((len, a2)) => body_at(s, a2, mode, len as u32),
        },
    }
}

fn parse_raw(input: &[u8], at: usize, len: u32) -> (r: Result<(RawBlock, usize), String>)
    ensures
        match r {
            Ok((b, next)) => raw_at(input@, at as int, len) == Ok::<(RawView, int), Seq<char>>(
                (b@, next as int),
            ) && next <= input@.len(),
            Err(e) => raw_at(input@, at as int, len) == Err::<(RawView, int), Seq<char>>(e@),
        },
{
    let (n, a1) = match read_u32(input, at) {
        Ok(p) => p,
        Err(e) => return Err(e),
    };
    if n != len {
        return Err("raw payload length does not match original length".to_string());
    }
    match read_vec(input, a1, n as u64) {
        Ok((payload, end)) => Ok((RawBlock { original_len: len, payload }, end)),
        Err(e) => Err(e),
    }
}

fn parse_alphabet(input: &[u8], at: usize, len: u32) -> (r: Result<(AlphabetBlock, usize), String>)
    ensures
        match r {
            Ok((b, next)) => alphabet_at(input@, at as int, len) == Ok::<
                (AlphabetView, int),
                Seq<char>,
            >((b@, next as int)) && next <= input@.len(),
            Err(e) => alphabet_at(input@, at as int, len) == Err::<(AlphabetView, int), Seq<char>>(
                e@,
            ),
        },
{
    let (n, a1) = match read_u8(input, at) {
        Ok(p) => p,
        Err(e) => return Err(e),
    };
    let (width, a2) = match read_u8(input, a1) {
        Ok(p) => p,
        Err(e) => return Err(e),
    };
    let (alphabet, a3) = match read_vec(input, a2, n as u64) {
        Ok(p) => p,
        Err(e) => return Err(e),
    };
    match validate_alphabet(alphabet.as_slice(), width) {
        Ok(_) => {},
        Err(e) => return Err(e),
    }
    let (breadcrumbs, a4) = match read_counted(input, a3, 4) {
        Ok(p) => p,
        Err(e) => return Err(e),
    };
    assert(0 <= len * width <= 255 * len) by (nonlinear_arith)
        requires
            width <= 255,
    ;
    if breadcrumbs.len() as u64 != ceil_div_u64(len as u64 * width as u64, 8) {
        return Err("alphabet breadcrumb payload length is not canonical".to_string());
    }
    Ok((AlphabetBlock { original_len: len, alphabet, bit_width: width, breadcrumbs }, a4))
}

fn check_sparse(block: &SparseAlphabetBlock) -> (r: Result<(), String>)
    ensures
        match r {
            Ok(_) => sparse_fault(block@) is None,
            Err(e) => sparse_fault(block@) == Some(e@),
        },
{
    let positions = match decode_position_deltas(block.exception_positions.as_slice()) {
        Ok(p) => p,
        Err(e) => return Err(e),
    };
    let n: usize = positions.len();
    let ghost b = block@;
    for i in 0..n
        invariant
            b == block@,
            n == positions@.len(),
            positions_from(b.exception_positions, 0, Seq::empty()) == Ok::<Seq<usize>, Seq<char>>(
                positions@,
            ),
            forall|k: int| 0 <= k < i ==> #[trigger] positions@[k] < b.original_len,
    {
        if positions[i] as u64 >= block.original_len as u64 {
            assert(positions@[i as int] >= b.original_len);
            return Err("sparse alphabet exception position is outside the block".to_string());
        }
    }
    if n as u64 > block.original_len as u64 {
        return Err("sparse alphabet dense count underflow".to_string());
    }
    let dense_count: u64 = block.original_len as u64 - n as u64;
    let width: u8 = bit_width_for_cardinality(block.exception_alphabet.len());
    assert(0 <= dense_count * block.dense_bit_width <= 255 * dense_count && 0 <= n * width <= 255
        * n) by (nonlinear_arith)
        requires
            block.dense_bit_width <= 255,
            width <= 255,
            0 <= dense_count,
            0 <= n,
    ;
    if block.dense_breadcrumbs.len() as u64 != ceil_div_u64(
        dense_count * block.dense_bit_width as u64,
        8,
    ) {
        return Err(
            "sparse alphabet dense breadcrumb payload length is not canonical".to_string(),
        );
    }
    if block.exception_indices.len() as u64 != ceil_div_u64(n as u64 * width as u64, 8) {
        return Err("sparse alphabet exception index payload length is not canonical".to_string());
    }
    Ok(())
}

fn parse_sparse(input: &[u8], at: usize, len: u32) -> (r: Result<
    (SparseAlphabetBlock, usize),
    String,
>)
    ensures
        match r {
            Ok((b, next)) => sparse_at(input@, at as int, len) == Ok::<(SparseView, int), Seq<char>>(
                (b@, next as int),
            ) && next <= input@.len(),
            Err(e) => sparse_at(input@, at as int, len) == Err::<(SparseView, int), Seq<char>>(e@),
        },
{
    let (n, a1) = match read_u8(input, at) {
        Ok(p) => p,
        Err(e) => return Err(e),
    };
    let (width, a2) = match read_u8(input, a1) {
        Ok(p) => p,
        Err(e) => return Err(e),
    };
    let (dense, a3) = match read_vec(input, a2, n as u64) {
        Ok(p) => p,
        Err(e) => return Err(e),
    };
    match validate_alphabet(dense.as_slice(), width) {
        Ok(_) => {},
        Err(e) => return Err(e),
    }
    let (crumbs, a4) = match read_counted(input, a3, 4) {
        Ok(p) => p,
        Err(e) => return Err(e),
    };
    let (exceptions, a5) = match read_counted(input, a4, 1) {
        Ok(p) => p,
        Err(e) => return Err(e),
    };
    match validate_alphabet(exceptions.as_slice(), bit_width_for_cardinality(exceptions.len())) {
        Ok(_) => {},
        Err(e) => return Err(e),
    }
    let (indices, a6) = match read_counted(input, a5, 4) {
        Ok(p) => p,
        Err(e) => return Err(e),
    };
    let (positions, a7) = match read_counted(input, a6, 4) {
        Ok(p) => p,
        Err(e) => return Err(e),
    };
    let block = SparseAlphabetBlock {
        original_len: len,
        dense_alphabet: dense,
        dense_bit_width: width,
        dense_breadcrumbs: crumbs,
        exception_alphabet: exceptions,
        exception_indices: indices,
        exception_positions: positions,
    };
    match check_sparse(&block) {
        Ok(_) => Ok((block, a7)),
        Err(e) => Err(e),
    }
}

fn parse_spectral(input: &[u8], at: usize, len: u32) -> (r: Result<(SpectralBlock, usize), String>)
    ensures
        match r {
            Ok((b, next)) => spectral_at(input@, at as int, len) == Ok::<
                (SpectralView, int),
                Seq<char>,
            >((b@, next as int)) && next <= input@.len(),
            Err(e) => spectral_at(input@, at as int, len) == Err::<(SpectralView, int), Seq<char>>(
                e@,
            ),
        },
{
    let (key, a1) = match read_counted(input, at, 2) {
        Ok(p) => p,
        Err(e) => return Err(e),
    };
    let parsed = match MagicKey::parse(key.as_slice()) {
        Ok(k) => k,
        Err(e) => return Err(e),
    };
    let program = match parsed.spectral_program() {
        Ok(p) => p,
        Err(e) => return Err(e),
    };
    if program.bit_len as u64 != len as u64 * 8 {
        return Err("spectral K block size does not match the record".to_string());
    }
    let (residual, a2) = match read_counted(input, a1, 4) {
        Ok(p) => p,
        Err(e) => return Err(e),
    };
    let predictor = match synthesise_spectral_bytes(parsed) {
        Ok(p) => p,
        Err(e) => return Err(e),
    };
    match apply_spectral_exceptions(predictor.as_slice(), residual.as_slice(), program.bit_len) {
        Ok(_) => Ok((SpectralBlock { original_len: len, key, residual }, a2)),
        Err(e) => Err(e),
    }
}

/// Checks the stream lengths of a path block.
fn check_path(
    original_len: u32,
    terminal_count: usize,
    slot_len: usize,
    steps: u8,
    crumb_len: usize,
    slot_fault: &str,
    overflow_fault: &str,
    crumb_fault: &str,
    Ghost(b): Ghost<PathView>,
) -> (r: Result<(), String>)
    requires
        b.original_len == original_len,
        b.terminals.len() == terminal_count <= 65535,
        b.terminal_indices.len() == slot_len,
        b.steps == steps,
        b.breadcrumbs.len() == crumb_len,
    ensures
        match r {
            Ok(_) => path_fault(b, slot_fault@, overflow_fault@, crumb_fault@) is None,
            Err(e) => path_fault(b, slot_fault@, overflow_fault@, crumb_fault@) == Some(e@),
        },
{
    let word_count: u64 = (original_len / 8) as u64;
    let width: u8 = bit_width_for_cardinality(terminal_count);
    assert(0 <= word_count * width <= 255 * word_count && 0 <= word_count * steps <= 255
        * word_count) by (nonlinear_arith)
        requires
            width <= 255,
            steps <= 255,
            0 <= word_count,
    ;
    if slot_len as u64 != ceil_div_u64(word_count * width as u64, 8) {
        return Err(slot_fault.to_string());
    }
    let total: u64 = word_count * steps as u64;
    if total > usize::MAX as u64 {
        return Err(overflow_fault.to_string());
    }
    if crumb_len as u64 != ceil_div_u64(total, 8) {
        return Err(crumb_fault.to_string());
    }
    Ok(())
}

fn parse_trajectory(input: &[u8], at: usize, len: u32) -> (r: Result<
    (TrajectoryBlock, usize),
    String,
>)
    ensures
        match r {
            Ok((b, next)) => trajectory_at(input@, at as int, len) == Ok::<
                (PathView, int),
                Seq<char>,
            >((b@, next as int)) && next <= input@.len(),
            Err(e) => trajectory_at(input@, at as int, len) == Err::<(PathView, int), Seq<char>>(
                e@,
            ),
        },
{
    let (key, a1) = match read_counted(input, at, 2) {
        Ok(p) => p,
        Err(e) => return Err(e),
    };
    let parsed = match MagicKey::parse(key.as_slice()) {
        Ok(k) => k,
        Err(e) => return Err(e),
    };
    let (count, a2) = match read_u16(input, a1) {
        Ok(p) => p,
        Err(e) => return Err(e),
    };
    if count == 0 {
        return Err("trajectory terminal palette must not be empty".to_string());
    }
    let (terminals, a3) = match read_words(input, a2, count) {
        Ok(p) => p,
        Err(e) => return Err(e),
    };
    let (terminal_indices, a4) = match read_counted(input, a3, 4) {
        Ok(p) => p,
        Err(e) => return Err(e),
    };
    let (steps, a5) = match read_u8(input, a4) {
        Ok(p) => p,
        Err(e) => return Err(e),
    };
    if steps < 1 || steps >= 64 {
        return Err("trajectory K does not match a valid step count".to_string());
    }
    match parsed.trajectory_steps() {
        Ok(own) => {
            if own != steps {
                return Err("trajectory K does not match a valid step count".to_string());
            }
        },
        Err(e) => return Err(e),
    }
    let (breadcrumbs, a6) = match read_counted(input, a5, 4) {
        Ok(p) => p,
        Err(e) => return Err(e),
    };
    let block = TrajectoryBlock {
        original_len: len,
        key,
        terminals,
        terminal_indices,
        steps,
        breadcrumbs,
    };
    if len % 8 != 0 {
        return Err("trajectory terminal index payload length is not canonical".to_string());
    }
    match check_path(
        len,
        block.terminals.len(),
        block.terminal_indices.len(),
        steps,
        block.breadcrumbs.len(),
        "trajectory terminal index payload length is not canonical",
        "trajectory breadcrumb length overflow",
        "trajectory parity breadcrumb payload length is not canonical",
        Ghost(block@),
    ) {
        Ok(_) => Ok((block, a6)),
        Err(e) => Err(e),
    }
}

fn parse_operator(input: &[u8], at: usize, len: u32) -> (r: Result<(OperatorBlock, usize), String>)
    ensures
        match r {
            Ok((b, next)) => operator_at(input@, at as int, len) == Ok::<(PathView, int), Seq<char>>(
                (b@, next as int),
            ) && next <= input@.len(),
            Err(e) => operator_at(input@, at as int, len) == Err::<(PathView, int), Seq<char>>(e@),
        },
{
    let (key, a1) = match read_counted(input, at, 2) {
        Ok(p) => p,
        Err(e) => return Err(e),
    };
    let parsed = match MagicKey::parse(key.as_slice()) {
        Ok(k) => k,
        Err(e) => return Err(e),
    };
    match parsed.require_kind(MagicKeyKind::Operator) {
        Ok(_) => {},
        Err(e) => return Err(e),
    }
    let (count, a2) = match read_u16(input, a1) {
        Ok(p) => p,
        Err(e) => return Err(e),
    };
    if count == 0 {
        return Err("operator terminal palette must not be empty".to_string());
    }
    let (terminals, a3) = match read_words(input, a2, count) {
        Ok(p) => p,
        Err(e) => return Err(e),
    };
    let (terminal_indices, a4) = match read_counted(input, a3, 4) {
        Ok(p) => p,
        Err(e) => return Err(e),
    };
    let (steps, a5) = match read_u8(input, a4) {
        Ok(p) => p,
        Err(e) => return Err(e),
    };
    if steps < 1 || steps >= 64 {
        return Err("operator parity step count must be in 1..64".to_string());
    }
    if len % 8 != 0 {
        return Err("operator block length must be divisible by 8".to_string());
    }
    let (breadcrumbs, a6) = match read_counted(input, a5, 4) {
        Ok(p) => p,
        Err(e) => return Err(e),
    };
    let block = OperatorBlock {
        original_len: len,
        key,
        terminals,
        terminal_indices,
        steps,
        breadcrumbs,
    };
    match check_path(
        len,
        block.terminals.len(),
        block.terminal_indices.len(),
        steps,
        block.breadcrumbs.len(),
        "operator terminal index payload length is not canonical",
        "operator breadcrumb length overflow",
        "operator parity breadcrumb payload length is not canonical",
        Ghost(block@),
    ) {
        Ok(_) => Ok((block, a6)),
        Err(e) => Err(e),
    }
}

/// Reads the block at `at`.
pub(crate) fn parse_block(input: &[u8], at: usize) -> (r: Result<(BlockEncoding, usize), String>)
    ensures
        match r {
            Ok((b, next)) => block_at(input@, at as int) == Ok::<(BlockView, int), Seq<char>>(
                (b@, next as int),
            ) && next <= input@.len(),
            Err(e) => block_at(input@, at as int) == Err::<(BlockView, int), Seq<char>>(e@),
        },
{
    reveal(block_at);
    let (mode, a1) = match read_u8(input, at) {
        Ok(p) => p,
        Err(e) => return Err(e),
    };
    let (len, a2) = match read_u32(input, a1) {
        Ok(p) => p,
        Err(e) => return Err(e),
    };
    match mode {
        0 => match parse_raw(input, a2, len) {
            Ok((b, end)) => Ok((BlockEncoding::Raw(b), end)),
            Err(e) => Err(e),
        },
        1 => match parse_spectral(input, a2, len) {
            Ok((b, end)) => Ok((BlockEncoding::Spectral(b), end)),
            Err(e) => Err(e),
        },
        2 => match parse_alphabet(input, a2, len) {
            Ok((b, end)) => Ok((BlockEncoding::Alphabet(b), end)),
            Err(e) => Err(e),
        },
        3 => match parse_trajectory(input, a2, len) {
            Ok((b, end)) => Ok((BlockEncoding::Trajectory(b), end)),
            Err(e) => Err(e),
        },
        4 => match parse_operator(input, a2, len) {
            Ok((b, end)) => Ok((BlockEncoding::Operator(b), end)),
            Err(e) => Err(e),
        },
        5 => match parse_sparse(input, a2, len) {
            Ok((b, end)) => Ok((BlockEncoding::SparseAlphabet(b), end)),
            Err(e) => Err(e),
        },
        other => Err(numbered("unknown block mode: ", other)),
    }
}

} // verus!
