//! The data that an archive is made of.
use vstd::prelude::*;

verus! {

/// A raw (uncompressed) block.
#[derive(Clone, Debug, Eq, PartialEq)]
pub struct RawBlock {
    pub original_len: u32,
    pub payload: Vec<u8>,
}

/// A block over a small alphabet.
#[derive(Clone, Debug, Eq, PartialEq)]
pub struct AlphabetBlock {
    pub original_len: u32,
    pub alphabet: Vec<u8>,
    pub bit_width: u8,
    pub breadcrumbs: Vec<u8>,
}

/// A block over a small alphabet with a few rare symbols kept apart.
#[derive(Clone, Debug, Eq, PartialEq)]
pub struct SparseAlphabetBlock {
    pub original_len: u32,
    pub dense_alphabet: Vec<u8>,
    pub dense_bit_width: u8,
    pub dense_breadcrumbs: Vec<u8>,
    pub exception_alphabet: Vec<u8>,
    pub exception_indices: Vec<u8>,
    pub exception_positions: Vec<u8>,
}

/// A block predicted by a spectral program, with the bits that differ.
#[derive(Clone, Debug, Eq, PartialEq)]
pub struct SpectralBlock {
    pub original_len: u32,
    pub key: Vec<u8>,
    pub residual: Vec<u8>,
}

/// A block of words given by their parity trajectories.
#[derive(Clone, Debug, Eq, PartialEq)]
pub struct TrajectoryBlock {
    pub original_len: u32,
    pub key: Vec<u8>,
    pub terminals: Vec<u64>,
    pub terminal_indices: Vec<u8>,
    pub steps: u8,
    pub breadcrumbs: Vec<u8>,
}

/// How an operator block stores its terminals.
#[derive(Clone, Copy, Debug, Eq, PartialEq)]
pub enum OperatorTerminalMode {
    RawSeed,
    PaletteSeed,
}

/// A block of words that go through a word operator first.
#[derive(Clone, Debug, Eq, PartialEq)]
pub struct OperatorBlock {
    pub original_len: u32,
    pub key: Vec<u8>,
    pub terminals: Vec<u64>,
    pub terminal_indices: Vec<u8>,
    pub steps: u8,
    pub breadcrumbs: Vec<u8>,
}

/// A block of the adaptive window encoder.
#[derive(Clone, Debug, Eq, PartialEq)]
pub struct AdaptiveWindowBlock {
    pub original_len: u32,
    pub meta_k: u64,
    pub v: Vec<u8>,
}

/// A block in one of its encodings.
#[derive(Clone, Debug, Eq, PartialEq)]
pub enum BlockEncoding {
    Raw(RawBlock),
    Spectral(SpectralBlock),
    Alphabet(AlphabetBlock),
    Trajectory(TrajectoryBlock),
    Operator(OperatorBlock),
    SparseAlphabet(SparseAlphabetBlock),
    Adaptive(AdaptiveWindowBlock),
}

/// A raw block as mathematical values.
#[verifier::ext_equal]
pub struct RawView {
    pub original_len: u32,
    pub payload: Seq<u8>,
}

/// An alphabet block as mathematical values.
#[verifier::ext_equal]
pub struct AlphabetView {
    pub original_len: u32,
    pub alphabet: Seq<u8>,
    pub bit_width: u8,
    pub breadcrumbs: Seq<u8>,
}

/// A sparse alphabet block as mathematical values.
#[verifier::ext_equal]
pub struct SparseView {
    pub original_len: u32,
    pub dense_alphabet: Seq<u8>,
    pub dense_bit_width: u8,
    pub dense_breadcrumbs: Seq<u8>,
    pub exception_alphabet: Seq<u8>,
    pub exception_indices: Seq<u8>,
    pub exception_positions: Seq<u8>,
}

/// A spectral block as mathematical values.
#[verifier::ext_equal]
pub struct SpectralView {
    pub original_len: u32,
    pub key: Seq<u8>,
    pub residual: Seq<u8>,
}

/// A trajectory or operator block as mathematical values.
#[verifier::ext_equal]
pub struct PathView {
    pub original_len: u32,
    pub key: Seq<u8>,
    pub terminals: Seq<u64>,
    pub terminal_indices: Seq<u8>,
    pub steps: u8,
    pub breadcrumbs: Seq<u8>,
}

/// An adaptive window block as mathematical values.
#[verifier::ext_equal]
pub struct AdaptiveView {
    pub original_len: u32,
    pub meta_k: u64,
    pub v: Seq<u8>,
}

/// A block as mathematical values.
#[verifier::ext_equal]
pub enum BlockView {
    Raw(RawView),
    Spectral(SpectralView),
    Alphabet(AlphabetView),
    Trajectory(PathView),
    Operator(PathView),
    SparseAlphabet(SparseView),
    Adaptive(AdaptiveView),
}

impl View for RawBlock {
    type V = RawView;

    open spec fn view(&self) -> RawView {
        RawView { original_len: self.original_len, payload: self.payload@ }
    }
}

impl View for AlphabetBlock {
    type V = AlphabetView;

    open spec fn view(&self) -> AlphabetView {
        AlphabetView {
            original_len: self.original_len,
            alphabet: self.alphabet@,
            bit_width: self.bit_width,
            breadcrumbs: self.breadcrumbs@,
        }
    }
}

impl View for SparseAlphabetBlock {
    type V = SparseView;

    open spec fn view(&self) -> SparseView {
        SparseView {
            original_len: self.original_len,
            dense_alphabet: self.dense_alphabet@,
            dense_bit_width: self.dense_bit_width,
            dense_breadcrumbs: self.dense_breadcrumbs@,
            exception_alphabet: self.exception_alphabet@,
            exception_indices: self.exception_indices@,
            exception_positions: self.exception_positions@,
        }
    }
}

impl View for SpectralBlock {
    type V = SpectralView;

    open spec fn view(&self) -> SpectralView {
        SpectralView {
            original_len: self.original_len,
            key: self.key@,
            residual: self.residual@,
        }
    }
}

impl View for TrajectoryBlock {
    type V = PathView;

    open spec fn view(&self) -> PathView {
        PathView {
            original_len: self.original_len,
            key: self.key@,
            terminals: self.terminals@,
            terminal_indices: self.terminal_indices@,
            steps: self.steps,
            breadcrumbs: self.breadcrumbs@,
        }
    }
}

impl View for OperatorBlock {
    type V = PathView;

    open spec fn view(&self) -> PathView {
        PathView {
            original_len: self.original_len,
            key: self.key@,
            terminals: self.terminals@,
            terminal_indices: self.terminal_indices@,
            steps: self.steps,
            breadcrumbs: self.breadcrumbs@,
        }
    }
}

impl View for AdaptiveWindowBlock {
    type V = AdaptiveView;

    open spec fn view(&self) -> AdaptiveView {
        AdaptiveView { original_len: self.original_len, meta_k: self.meta_k, v: self.v@ }
    }
}

impl View for BlockEncoding {
    type V = BlockView;

    open spec fn view(&self) -> BlockView {
        match self {
            BlockEncoding::Raw(b) => BlockView::Raw(b@),
            BlockEncoding::Spectral(b) => BlockView::Spectral(b@),
            BlockEncoding::Alphabet(b) => BlockView::Alphabet(b@),
            BlockEncoding::Trajectory(b) => BlockView::Trajectory(b@),
            BlockEncoding::Operator(b) => BlockView::Operator(b@),
            BlockEncoding::SparseAlphabet(b) => BlockView::SparseAlphabet(b@),
            BlockEncoding::Adaptive(b) => BlockView::Adaptive(b@),
        }
    }
}

/// The number that marks an encoding on the wire.
pub open spec fn mode_of(block: BlockView) -> u8 {
    match block {
        BlockView::Raw(_) => 0,
        BlockView::Spectral(_) => 1,
        BlockView::Alphabet(_) => 2,
        BlockView::Trajectory(_) => 3,
        BlockView::Operator(_) => 4,
        BlockView::SparseAlphabet(_) => 5,
        BlockView::Adaptive(_) => 6,
    }
}

impl BlockEncoding {
    pub fn mode(&self) -> (mode: u8)
        ensures
            mode == mode_of(self@),
    {
        match self {
            BlockEncoding::Raw(_) => 0,
            BlockEncoding::Spectral(_) => 1,
            BlockEncoding::Alphabet(_) => 2,
            BlockEncoding::Trajectory(_) => 3,
            BlockEncoding::Operator(_) => 4,
            BlockEncoding::SparseAlphabet(_) => 5,
            BlockEncoding::Adaptive(_) => 6,
        }
    }
}

/// A block with the window it belongs to.
#[derive(Clone, Debug, Eq, PartialEq)]
pub struct BlockRecord {
    pub window_index: u8,
    pub encoding: BlockEncoding,
}

/// What is known of a block before it is encoded.
#[derive(Clone, Debug, Eq, PartialEq)]
pub struct BlockAnalysis {
    pub unique_sorted_bytes: Vec<u8>,
}

impl View for BlockAnalysis {
    type V = Seq<u8>;

    open spec fn view(&self) -> Seq<u8> {
        self.unique_sorted_bytes@
    }
}

/// A range of windows, both ends powers of two.
#[derive(Clone, Copy, Debug, Eq, PartialEq)]
pub struct PassWindowBand {
    pub min_window_bits: u32,
    pub max_window_bits: u32,
}

/// What a recursive archive says of one of its layers.
#[derive(Clone, Copy, Debug, Eq, PartialEq)]
pub struct LayerSummary {
    pub block_size_bytes: u32,
    pub input_size: u64,
    pub output_size: u64,
}

/// The header of a single-layer archive.
#[derive(Clone, Copy, Debug, Eq, PartialEq)]
pub struct ArchiveHeader {
    pub base_version: u8,
    pub block_size_bytes: u32,
    pub original_size: u64,
    pub block_count: u32,
}

/// A single-layer archive.
#[derive(Clone, Debug, Eq, PartialEq)]
pub struct Archive {
    pub header: ArchiveHeader,
    pub blocks: Vec<BlockEncoding>,
}

/// An archive as mathematical values.
#[verifier::ext_equal]
pub struct ArchiveView {
    pub header: ArchiveHeader,
    pub blocks: Seq<BlockView>,
}

/// The views of blocks.
pub open spec fn views(blocks: Seq<BlockEncoding>) -> Seq<BlockView> {
    blocks.map_values(|b: BlockEncoding| b@)
}

impl View for Archive {
    type V = ArchiveView;

    open spec fn view(&self) -> ArchiveView {
        ArchiveView { header: self.header, blocks: views(self.blocks@) }
    }
}

/// An encoder succeeded, with exactly the given block or with none.
pub open spec fn produced(r: Result<Option<BlockEncoding>, String>, want: Option<BlockView>) -> bool {
    match r {
        Ok(Some(block)) => want == Some(block@),
        Ok(None) => want is None,
        Err(_) => false,
    }
}

} // verus!
