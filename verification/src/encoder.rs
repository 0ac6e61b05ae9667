//! The layered block encoder.
//!
//! A file is cut into windows, and every window is encoded by a key and a
//! branch log. Further layers follow for as long as a layer makes its data
//! shorter by at least a tenth. A layer on top of others that does not make
//! its data shorter is refused.
//!
//! The stream of keys and logs that a further layer is to encode is simulated:
//! the layer gets as many bytes `0xAB` as the layer before it gives out. So the
//! further layers tell of sizes only, and a file is restored from the first
//! layer.
//!
//! Whether the spectrum of a block is sharp or flat is judged outside: the
//! encoder asks for the verdict on one block after the other. The verdicts
//! adapt a window that is only reported, by its least and its greatest size in
//! a layer, and by which the next block is judged. Every block is encoded with
//! the window that the file was started with, since a smaller one would leave
//! out bytes of the block.
use vstd::prelude::*;
use vstd::arithmetic::power2::{is_pow2, pow2};
use crate::bitstream::ceil_div;
use crate::branch::BranchVector;
use crate::fwht::{adapt_window, next_window};
use crate::kernel::topology::chunk;
use crate::keygen::{key_bits, synthesize_k, synthesized, KeyView, MagicKey};
use crate::operator::{encode_block, rounds_of, window_bytes};
use crate::words::words_of;

verus! {

/// How many rounds of the operator a block gets by default.
pub const DEFAULT_ROUNDS: usize = 3;

/// The smallest window that adaption leads to.
pub const MIN_ADAPTED_BITS: usize = 64;

/// The largest window that adaption leads to.
pub const MAX_ADAPTED_BITS: usize = 0x10_0000;

/// What is known of a layer.
#[derive(Debug, Clone, Copy, PartialEq, Eq, Structural)]
pub struct LayerInfo {
    pub layer_idx: usize,
    pub input_bytes: usize,
    pub output_bytes: usize,
    pub n_blocks: usize,
    pub window_min: usize,
    pub window_max: usize,
    pub rounds: usize,
    pub total_k_bits: usize,
    pub total_v_bits: usize,
    pub total_peaks: usize,
}

/// An encoded block: its key, its branch log, and the transformed words.
#[derive(Debug, Clone)]
pub struct EncodedBlock {
    pub key: MagicKey,
    pub branch: BranchVector,
    pub transformed: Vec<u64>,
}

/// An encoded block as mathematical values.
#[verifier::ext_equal]
pub struct CodedView {
    pub key: KeyView,
    pub log: Seq<bool>,
    pub words: Seq<u64>,
}

impl View for EncodedBlock {
    type V = CodedView;

    open spec fn view(&self) -> CodedView {
        CodedView { key: self.key@, log: self.branch@, words: self.transformed@ }
    }
}

/// The views of encoded blocks.
pub open spec fn coded_views(blocks: Seq<EncodedBlock>) -> Seq<CodedView> {
    blocks.map_values(|b: EncodedBlock| b@)
}

/// Every branch log of the blocks is well-formed.
pub open spec fn logs_wf(blocks: Seq<EncodedBlock>) -> bool {
    forall|i: int| 0 <= i < blocks.len() ==> (#[trigger] blocks[i]).branch.wf()
}

/// An encoded layer.
#[derive(Debug, Clone)]
pub struct EncodedLayer {
    pub info: LayerInfo,
    pub blocks: Vec<EncodedBlock>,
}

/// An encoded layer as mathematical values.
#[verifier::ext_equal]
pub struct LayerView {
    pub info: LayerInfo,
    pub blocks: Seq<CodedView>,
}

impl View for EncodedLayer {
    type V = LayerView;

    open spec fn view(&self) -> LayerView {
        LayerView { info: self.info, blocks: coded_views(self.blocks@) }
    }
}

/// The views of layers.
pub open spec fn layer_views(layers: Seq<EncodedLayer>) -> Seq<LayerView> {
    layers.map_values(|l: EncodedLayer| l@)
}

/// Every branch log of the layers is well-formed.
pub open spec fn layers_wf(layers: Seq<EncodedLayer>) -> bool {
    forall|i: int| 0 <= i < layers.len() ==> logs_wf((#[trigger] layers[i]).blocks@)
}

/// The layers of a file.
#[derive(Debug, Clone)]
pub struct Archive {
    pub layers: Vec<EncodedLayer>,
    pub original_bytes: usize,
}

impl Archive {
    /// The size after the last layer.
    pub fn compressed_bytes(&self) -> (bytes: usize)
        ensures
            bytes == if self.layers@.len() == 0 {
                0
            } else {
                self.layers@.last().info.output_bytes
            },
    {
        if self.layers.len() == 0 {
            0
        } else {
            self.layers[self.layers.len() - 1].info.output_bytes
        }
    }
}

/// A block encoded with a window of the given size.
#[verifier::opaque]
pub open spec fn coded_block(block: Seq<u8>, window: nat, rounds: nat) -> CodedView {
    let key = synthesized(block, window);
    let (words, log) = rounds_of(words_of(window_bytes(block, window / 64)), key, rounds);
    CodedView { key, log, words }
}

/// Block `i` of the data, filled with zeros to the window.
pub open spec fn piece(data: Seq<u8>, window: nat, i: int) -> Seq<u8> {
    window_bytes(chunk(data, window / 8, i), window / 64)
}

/// How many blocks there are; one even where there is no data.
pub open spec fn block_count(len: nat, window: nat) -> nat {
    if len == 0 {
        1
    } else {
        ceil_div(len, window / 8)
    }
}

/// The bits of a layer: its keys, its logs, and 64 bits for each block.
pub open spec fn output_bits(info: LayerInfo) -> nat {
    (info.total_k_bits + info.total_v_bits + 64 * info.n_blocks) as nat
}

/// There is no further layer: this one does not make the data shorter, or by
/// less than a tenth, or there are enough layers.
pub open spec fn is_last(info: LayerInfo) -> bool {
    let input_bits = 8 * info.input_bytes;
    ||| info.output_bytes >= info.input_bytes
    ||| 10 * (input_bits - output_bits(info)) < input_bits
    ||| info.layer_idx >= 8
}

/// An encoder at work.
#[verifier::ext_equal]
pub struct EncoderView {
    pub window: nat,
    pub rounds: nat,
    pub original: nat,
    pub layers: Seq<LayerView>,
    pub current: Seq<u8>,
    pub blocks: Seq<CodedView>,
    pub adapted: nat,
    pub low: nat,
    pub high: nat,
    pub k_bits: nat,
    pub v_bits: nat,
    pub peaks: nat,
    pub done: bool,
}

/// An encoder at the start of a layer.
pub open spec fn layer_start(
    window: nat,
    rounds: nat,
    original: nat,
    layers: Seq<LayerView>,
    current: Seq<u8>,
) -> EncoderView {
    EncoderView {
        window,
        rounds,
        original,
        layers,
        current,
        blocks: Seq::empty(),
        adapted: window,
        low: window,
        high: window,
        k_bits: 0,
        v_bits: 0,
        peaks: 0,
        done: false,
    }
}

/// An encoder at the start of a file.
pub open spec fn file_start(data: Seq<u8>, window: nat, rounds: nat) -> EncoderView {
    layer_start(window, rounds, data.len(), Seq::empty(), data)
}

/// The encoder after the next block was taken, with the verdict on it.
pub open spec fn with_block(s: EncoderView, sharp: bool, flat: bool) -> EncoderView {
    let coded = coded_block(
        piece(s.current, s.window, s.blocks.len() as int),
        s.window,
        s.rounds,
    );
    let adapted = next_window(
        s.adapted,
        sharp,
        flat,
        MIN_ADAPTED_BITS as nat,
        MAX_ADAPTED_BITS as nat,
    );
    EncoderView {
        blocks: s.blocks.push(coded),
        adapted,
        low: if adapted < s.low {
            adapted
        } else {
            s.low
        },
        high: if adapted > s.high {
            adapted
        } else {
            s.high
        },
        k_bits: s.k_bits + key_bits(coded.key),
        v_bits: s.v_bits + coded.log.len(),
        peaks: s.peaks + coded.key.peaks.len(),
        ..s
    }
}

/// What is known of the layer that is complete.
pub open spec fn finished_info(s: EncoderView) -> LayerInfo {
    let n = s.blocks.len();
    LayerInfo {
        layer_idx: s.layers.len() as usize,
        input_bytes: s.current.len() as usize,
        output_bytes: ((s.k_bits + s.v_bits + 64 * n + 7) / 8) as usize,
        n_blocks: n as usize,
        window_min: s.low as usize,
        window_max: s.high as usize,
        rounds: s.rounds as usize,
        total_k_bits: s.k_bits as usize,
        total_v_bits: s.v_bits as usize,
        total_peaks: s.peaks as usize,
    }
}

/// A layer on top of others is refused where it does not make the data
/// shorter.
pub open spec fn is_refused(info: LayerInfo) -> bool {
    info.layer_idx > 0 && info.output_bytes >= info.input_bytes
}

/// The encoder that stops with the given layers.
pub open spec fn stopped(s: EncoderView, layers: Seq<LayerView>) -> EncoderView {
    EncoderView { layers, blocks: Seq::empty(), k_bits: 0, v_bits: 0, peaks: 0, done: true, ..s }
}

/// The encoder after a layer was closed: a refused layer is dropped.
pub open spec fn closed_layer(s: EncoderView) -> EncoderView {
    let info = finished_info(s);
    let layers = s.layers.push(LayerView { info, blocks: s.blocks });
    if is_refused(info) {
        stopped(s, s.layers)
    } else if is_last(info) {
        stopped(s, layers)
    } else {
        layer_start(
            s.window,
            s.rounds,
            s.original,
            layers,
            Seq::new(info.output_bytes as nat, |i: int| 0xABu8),
        )
    }
}

/// The encoder after the verdict on the next block.
pub open spec fn advanced(s: EncoderView, sharp: bool, flat: bool) -> EncoderView {
    let next = with_block(s, sharp, flat);
    if next.blocks.len() < block_count(s.current.len(), s.window) {
        next
    } else {
        closed_layer(next)
    }
}

/// The most bits that a block takes.
pub open spec fn block_room(window: nat, rounds: nat) -> nat {
    (rounds + 1) * window + 240
}

/// The layers of an input are sure to fit.
pub open spec fn layers_fit(len: nat, window: nat, rounds: nat) -> bool {
    block_count(len, window) * block_room(window, rounds) + 7 <= usize::MAX
}

/// An encoder that waits for a verdict, or has finished.
#[derive(Debug, Clone)]
pub struct FileEncoder {
    window: usize,
    rounds: usize,
    original: usize,
    layers: Vec<EncodedLayer>,
    current: Vec<u8>,
    blocks: Vec<EncodedBlock>,
    adapted: usize,
    low: usize,
    high: usize,
    k_bits: usize,
    v_bits: usize,
    peaks: usize,
    done: bool,
}

impl View for FileEncoder {
    type V = EncoderView;

    closed spec fn view(&self) -> EncoderView {
        EncoderView {
            window: self.window as nat,
            rounds: self.rounds as nat,
            original: self.original as nat,
            layers: layer_views(self.layers@),
            current: self.current@,
            blocks: coded_views(self.blocks@),
            adapted: self.adapted as nat,
            low: self.low as nat,
            high: self.high as nat,
            k_bits: self.k_bits as nat,
            v_bits: self.v_bits as nat,
            peaks: self.peaks as nat,
            done: self.done,
        }
    }
}

/// The bounds that an encoder keeps.
pub open spec fn bounded(s: EncoderView) -> bool {
    &&& is_pow2(s.window as int)
    &&& 64 <= s.window <= i64::MAX
    &&& layers_fit(s.current.len(), s.window, s.rounds)
    &&& s.layers.len() <= 9
    &&& !s.done ==> s.layers.len() <= 8
    &&& !s.done ==> s.blocks.len() < block_count(s.current.len(), s.window)
    &&& s.k_bits + s.v_bits + 64 * s.blocks.len() <= s.blocks.len() * block_room(s.window, s.rounds)
    &&& s.peaks <= s.blocks.len() * block_room(s.window, s.rounds)
}

/// A block takes no more than its room.
proof fn lemma_block_room(block: Seq<u8>, window: nat, rounds: nat)
    requires
        is_pow2(window as int),
        64 <= window <= i64::MAX,
        window <= usize::MAX,
    ensures
        ({
            let b = coded_block(block, window, rounds);
            &&& key_bits(b.key) + b.log.len() + 64 <= block_room(window, rounds)
            &&& b.key.peaks.len() <= window <= block_room(window, rounds)
            &&& b.log.len() == rounds * b.key.peaks.len()
            &&& b.log.len() <= rounds * window
            &&& is_pow2(window as int / 64)
        }),
{
    reveal(coded_block);
    let b = coded_block(block, window, rounds);
    let count = b.key.peaks.len();
    crate::keygen::law_taken_peaks_pay(block, window);
    crate::keygen::law_taken_peaks_are_distinct(block, window);
    lemma_sixty_fourth(window);
    let words = words_of(window_bytes(block, window / 64));
    crate::operator::law_log_length(words, b.key, rounds);
    assert(rounds * count <= rounds * window) by (nonlinear_arith)
        requires
            count <= window,
    ;
    assert((rounds + 1) * window == rounds * window + window && 0 <= rounds * window)
        by (nonlinear_arith);
    assert(count <= window) by (nonlinear_arith)
        requires
            count * crate::keygen::index_bits(window) + count <= window,
            0 <= count,
    ;
}

/// A window of at least 64 bits is a whole number of words, a power of two.
pub proof fn lemma_sixty_fourth(window: nat)
    requires
        is_pow2(window as int),
        window >= 64,
    ensures
        is_pow2(window as int / 64),
        window % 64 == 0,
{
    reveal(is_pow2);
    assert(is_pow2(window as int / 2));
    assert(is_pow2(window as int / 2 / 2));
    assert(is_pow2(window as int / 2 / 2 / 2));
    assert(is_pow2(window as int / 2 / 2 / 2 / 2));
    assert(is_pow2(window as int / 2 / 2 / 2 / 2 / 2));
    assert(is_pow2(window as int / 2 / 2 / 2 / 2 / 2 / 2));
}

/// Fewer bytes never need more blocks.
proof fn lemma_fewer_blocks(a: nat, b: nat, window: nat)
    requires
        a <= b,
        window >= 64,
    ensures
        block_count(a, window) <= block_count(b, window),
        block_count(b, window) >= 1,
{
    let d = window as int / 8;
    if b > 0 {
        vstd::arithmetic::div_mod::lemma_div_pos_is_pos(b - 1, d);
        if a > 0 {
            vstd::arithmetic::div_mod::lemma_div_is_ordered(a - 1, b - 1, d);
        }
    }
}

/// A block starts within the data.
proof fn lemma_block_start(len: nat, window: nat, i: int)
    requires
        window >= 64,
        0 <= i < block_count(len, window),
    ensures
        0 <= i * (window as int / 8) <= len,
{
    let d = window as int / 8;
    if len == 0 {
        assert(0 * d == 0);
    } else {
        let q = (len - 1) / d;
        vstd::arithmetic::div_mod::lemma_fundamental_div_mod(len - 1, d);
        assert(0 <= i * d <= d * q) by (nonlinear_arith)
            requires
                0 <= i <= q,
                d > 0,
        ;
    }
}

/// One more block stays within the room of all blocks.
proof fn lemma_one_more_block(n: nat, total: nat, room: nat)
    requires
        n < total,
    ensures
        n * room + room == (n + 1) * room,
        (n + 1) * room <= total * room,
{
    assert(n * room + room == (n + 1) * room) by (nonlinear_arith);
    assert((n + 1) * room <= total * room) by (nonlinear_arith)
        requires
            n + 1 <= total,
    ;
}

/// Encodes one block.
fn encode_piece(block: &Vec<u8>, window: usize, rounds: usize) -> (b: EncodedBlock)
    requires
        is_pow2(window as int),
        64 <= window <= i64::MAX,
        block_room(window as nat, rounds as nat) <= usize::MAX,
    ensures
        b@ == coded_block(block@, window as nat, rounds as nat),
        b.branch.wf(),
        b.key.window_bits == window,
{
    reveal(coded_block);
    proof {
        lemma_block_room(block@, window as nat, rounds as nat);
    }
    let (key, _) = synthesize_k(block.as_slice(), window);
    let (transformed, branch) = encode_block(block.as_slice(), &key, rounds);
    EncodedBlock { key, branch, transformed }
}

/// The gain of a layer is below a tenth of its input.
fn gain_below_tenth(input_bytes: usize, bits: usize) -> (r: bool)
    ensures
        r == (10 * (8 * input_bytes - bits) < 8 * input_bytes),
{
    72 * (input_bytes as u128) < 10 * (bits as u128)
}

/// Stands for a stream of keys and logs of the given length.
fn filler(n: usize) -> (out: Vec<u8>)
    ensures
        out@ == Seq::new(n as nat, |i: int| 0xABu8),
{
    let mut out: Vec<u8> = Vec::new();
    for k in 0..n
        invariant
            out@ == Seq::new(k as nat, |i: int| 0xABu8),
    {
        out.push(0xAB);
        assert(out@ =~= Seq::new((k + 1) as nat, |i: int| 0xABu8));
    }
    out
}

impl FileEncoder {
    pub closed spec fn wf(&self) -> bool {
        &&& bounded(self@)
        &&& layers_wf(self.layers@)
        &&& logs_wf(self.blocks@)
    }

    /// Starts on a file.
    pub fn new(data: &[u8], start_window_bits: usize, rounds: usize) -> (e: Self)
        requires
            is_pow2(start_window_bits as int),
            64 <= start_window_bits <= i64::MAX,
            layers_fit(data@.len(), start_window_bits as nat, rounds as nat),
        ensures
            e.wf(),
            e@ == file_start(data@, start_window_bits as nat, rounds as nat),
    {
        proof {
            lemma_fewer_blocks(data@.len(), data@.len(), start_window_bits as nat);
            assert(0 * block_room(start_window_bits as nat, rounds as nat) == 0);
        }
        let e = FileEncoder {
            window: start_window_bits,
            rounds,
            original: data.len(),
            layers: Vec::new(),
            current: vstd::slice::slice_to_vec(data),
            blocks: Vec::new(),
            adapted: start_window_bits,
            low: start_window_bits,
            high: start_window_bits,
            k_bits: 0,
            v_bits: 0,
            peaks: 0,
            done: false,
        };
        assert(e@ =~= file_start(data@, start_window_bits as nat, rounds as nat));
        e
    }

    /// Whether the file is finished.
    pub fn is_done(&self) -> (done: bool)
        ensures
            done == self@.done,
    {
        self.done
    }

    /// The block on which a verdict is awaited, and the window to judge it by.
    pub fn pending(&self) -> (r: Option<(Vec<u8>, usize)>)
        requires
            self.wf(),
        ensures
            match r {
                Some((block, window)) => !self@.done && block@ == piece(
                    self@.current,
                    self@.window,
                    self@.blocks.len() as int,
                ) && window == self@.adapted,
                None => self@.done,
            },
    {
        if self.done {
            return None;
        }
        Some((self.next_block(), self.adapted))
    }

    fn next_block(&self) -> (block: Vec<u8>)
        requires
            self.wf(),
            !self@.done,
        ensures
            block@ == piece(self@.current, self@.window, self@.blocks.len() as int),
            block@.len() == self@.window / 8,
    {
        let size: usize = self.window / 8;
        let i: usize = self.blocks.len();
        let n: usize = self.current.len();
        proof {
            lemma_sixty_fourth(self.window as nat);
            lemma_block_start(n as nat, self.window as nat, i as int);
        }
        let start: usize = i * size;
        let mut block: Vec<u8> = Vec::new();
        let ghost own = chunk(self.current@, size as nat, i as int);
        let ghost want = piece(self@.current, self@.window, self@.blocks.len() as int);
        for j in 0..size
            invariant
                n == self.current@.len(),
                start <= n,
                start == i * size,
                own == chunk(self.current@, size as nat, i as int),
                want.len() == size,
                forall|q: int|
                    0 <= q < size ==> #[trigger] want[q] == (if q < own.len() {
                        own[q]
                    } else {
                        0
                    }),
                block@ == want.take(j as int),
        {
            let byte: u8 = if j < n - start {
                self.current[start + j]
            } else {
                0
            };
            assert(own.len() == (if n - start < size {
                n - start
            } else {
                size as int
            }));
            assert(want[j as int] == byte);
            block.push(byte);
            assert(block@ =~= want.take(j + 1));
        }
        assert(block@ =~= want);
        block
    }

    /// Encodes the pending block.
    fn take_block(&mut self, sharp: bool, flat: bool)
        requires
            old(self).wf(),
            !old(self)@.done,
        ensures
            final(self)@ == with_block(old(self)@, sharp, flat),
            layers_wf(final(self).layers@),
            logs_wf(final(self).blocks@),
            final(self)@.k_bits + final(self)@.v_bits + 64 * final(self)@.blocks.len()
                <= final(self)@.blocks.len() * block_room(old(self)@.window, old(self)@.rounds),
            final(self)@.peaks <= final(self)@.blocks.len() * block_room(
                old(self)@.window,
                old(self)@.rounds,
            ),
    {
        let ghost before = self@;
        let ghost n = self.blocks@.len();
        let ghost room = block_room(before.window, before.rounds);
        let block = self.next_block();
        proof {
            lemma_one_more_block(n, block_count(before.current.len(), before.window), room);
            lemma_block_room(block@, before.window, before.rounds);
            assert(coded_views(self.blocks@).len() == n);
        }
        let coded = encode_piece(&block, self.window, self.rounds);
        self.adapted = adapt_window(
            self.adapted,
            sharp,
            flat,
            MIN_ADAPTED_BITS,
            MAX_ADAPTED_BITS,
        );
        if self.adapted < self.low {
            self.low = self.adapted;
        }
        if self.adapted > self.high {
            self.high = self.adapted;
        }
        self.k_bits = self.k_bits + coded.key.bit_len();
        self.v_bits = self.v_bits + coded.branch.len();
        self.peaks = self.peaks + coded.key.peak_indices.len();
        let ghost old_blocks = self.blocks@;
        self.blocks.push(coded);
        assert(coded_views(self.blocks@) =~= coded_views(old_blocks).push(coded@));
        assert(self@ =~= with_block(before, sharp, flat));
        assert forall|i: int| 0 <= i < self.blocks@.len() implies (
        #[trigger] self.blocks@[i]).branch.wf() by {
            if i < old_blocks.len() {
                assert(self.blocks@[i] == old_blocks[i]);
            }
        }
    }

    /// Takes the verdict on the pending block, and goes on to the next.
    pub fn advance(&mut self, sharp: bool, flat: bool)
        requires
            old(self).wf(),
            !old(self)@.done,
        ensures
            final(self).wf(),
            final(self)@ == advanced(old(self)@, sharp, flat),
    {
        self.take_block(sharp, flat);
        let total: usize = self.total_blocks();
        if self.blocks.len() < total {
            return;
        }
        self.close_layer();
    }

    fn total_blocks(&self) -> (n: usize)
        requires
            64 <= self@.window,
        ensures
            n == block_count(self@.current.len(), self@.window),
    {
        let len: usize = self.current.len();
        if len == 0 {
            1
        } else {
            proof {
                let d = self.window as int / 8;
                vstd::arithmetic::div_mod::lemma_div_nonincreasing(len - 1, d);
            }
            (len - 1) / (self.window / 8) + 1
        }
    }

    fn close_layer(&mut self)
        requires
            !old(self)@.done,
            is_pow2(old(self)@.window as int),
            64 <= old(self)@.window <= i64::MAX,
            layers_fit(old(self)@.current.len(), old(self)@.window, old(self)@.rounds),
            old(self)@.layers.len() <= 8,
            old(self)@.blocks.len() == block_count(old(self)@.current.len(), old(self)@.window),
            old(self)@.k_bits + old(self)@.v_bits + 64 * old(self)@.blocks.len()
                <= old(self)@.blocks.len() * block_room(old(self)@.window, old(self)@.rounds),
            old(self)@.peaks <= old(self)@.blocks.len() * block_room(
                old(self)@.window,
                old(self)@.rounds,
            ),
            layers_wf(old(self).layers@),
            logs_wf(old(self).blocks@),
        ensures
            final(self).wf(),
            final(self)@ == closed_layer(old(self)@),
    {
        let ghost before = self@;
        let n: usize = self.blocks.len();
        let bits: usize = self.k_bits + self.v_bits + 64 * n;
        let output_bytes: usize = (bits + 7) / 8;
        let input_bytes: usize = self.current.len();
        let info = LayerInfo {
            layer_idx: self.layers.len(),
            input_bytes,
            output_bytes,
            n_blocks: n,
            window_min: self.low,
            window_max: self.high,
            rounds: self.rounds,
            total_k_bits: self.k_bits,
            total_v_bits: self.v_bits,
            total_peaks: self.peaks,
        };
        assert(info == finished_info(before));
        let mut blocks: Vec<EncodedBlock> = Vec::new();
        std::mem::swap(&mut blocks, &mut self.blocks);
        assert(coded_views(self.blocks@) =~= Seq::empty());
        self.k_bits = 0;
        self.v_bits = 0;
        self.peaks = 0;
        assert(0 * block_room(before.window, before.rounds) == 0);
        if info.layer_idx > 0 && output_bytes >= input_bytes {
            self.done = true;
            assert(self@ =~= closed_layer(before));
            return;
        }
        let layer = EncodedLayer { info, blocks };
        let ghost old_layers = self.layers@;
        self.layers.push(layer);
        assert(layer_views(self.layers@) =~= layer_views(old_layers).push(layer@));
        assert(layers_wf(self.layers@)) by {
            assert forall|i: int| 0 <= i < self.layers@.len() implies logs_wf(
                (#[trigger] self.layers@[i]).blocks@,
            ) by {
                if i < old_layers.len() {
                    assert(self.layers@[i] == old_layers[i]);
                }
            }
        }
        let last: bool = output_bytes >= input_bytes || info.layer_idx >= 8 || gain_below_tenth(
            input_bytes,
            bits,
        );
        assert(last == is_last(info));
        if last {
            self.done = true;
            assert(self@ =~= closed_layer(before));
            return;
        }
        self.current = filler(output_bytes);
        self.adapted = self.window;
        self.low = self.window;
        self.high = self.window;
        proof {
            lemma_fewer_blocks(output_bytes as nat, input_bytes as nat, before.window);
            lemma_fewer_blocks(output_bytes as nat, output_bytes as nat, before.window);
            let room = block_room(before.window, before.rounds);
            let (a, b) = (
                block_count(output_bytes as nat, before.window),
                block_count(input_bytes as nat, before.window),
            );
            assert(a * room <= b * room) by (nonlinear_arith)
                requires
                    a <= b,
                    0 <= room,
            ;
        }
        assert(self@ =~= closed_layer(before));
    }

    /// The archive of a finished file.
    pub fn finish(self) -> (archive: Archive)
        requires
            self.wf(),
            self@.done,
        ensures
            layer_views(archive.layers@) == self@.layers,
            layers_wf(archive.layers@),
            archive.original_bytes == self@.original,
    {
        Archive { layers: self.layers, original_bytes: self.original }
    }
}

/// The encoder after a run of verdicts; a finished encoder takes no more.
pub open spec fn run(s: EncoderView, verdicts: Seq<(bool, bool)>) -> EncoderView
    decreases verdicts.len(),
{
    if verdicts.len() == 0 {
        s
    } else {
        let t = run(s, verdicts.drop_last());
        if t.done {
            t
        } else {
            advanced(t, verdicts.last().0, verdicts.last().1)
        }
    }
}

/// The first `n` blocks of the data, encoded.
pub open spec fn coded_blocks(data: Seq<u8>, window: nat, rounds: nat, n: nat) -> Seq<CodedView> {
    Seq::new(n, |i: int| coded_block(piece(data, window, i), window, rounds))
}

/// A closed layer logs one bit for every peak and every round.
pub open spec fn log_is_complete(info: LayerInfo) -> bool {
    info.total_v_bits == info.rounds * info.total_peaks
}

/// The layer makes its data shorter.
pub open spec fn shrinks(info: LayerInfo) -> bool {
    info.output_bytes < info.input_bytes
}

/// What an encoder keeps of the file it was started on.
pub open spec fn follows(data: Seq<u8>, s: EncoderView) -> bool {
    &&& bounded(s)
    &&& s.rounds <= usize::MAX
    &&& s.window <= usize::MAX
    &&& s.original == data.len()
    &&& s.v_bits == s.rounds * s.peaks
    &&& s.done ==> s.layers.len() > 0
    &&& s.layers.len() == 0 ==> s.current == data && s.blocks == coded_blocks(
        data,
        s.window,
        s.rounds,
        s.blocks.len(),
    )
    &&& s.layers.len() > 0 ==> {
        &&& s.layers[0].blocks == coded_blocks(
            data,
            s.window,
            s.rounds,
            block_count(data.len(), s.window),
        )
        &&& s.layers[0].info.input_bytes == data.len()
        &&& !s.done ==> !is_last(s.layers.last().info) && s.current.len()
            == s.layers.last().info.output_bytes
    }
    &&& forall|i: int| 0 <= i < s.layers.len() ==> log_is_complete((#[trigger] s.layers[i]).info)
    &&& forall|i: int|
        0 <= i < s.layers.len() ==> (#[trigger] s.layers[i]).info.rounds == s.rounds
    &&& forall|i: int|
        0 <= i < s.layers.len() - 1 ==> !is_last((#[trigger] s.layers[i]).info)
            && s.layers[i].info.output_bytes == s.layers[i + 1].info.input_bytes
    &&& forall|i: int| 0 < i < s.layers.len() ==> shrinks((#[trigger] s.layers[i]).info)
}

proof fn lemma_with_block(data: Seq<u8>, s: EncoderView, sharp: bool, flat: bool)
    requires
        follows(data, s),
        !s.done,
    ensures
        ({
            let t = with_block(s, sharp, flat);
            let room = block_room(s.window, s.rounds);
            &&& t.k_bits + t.v_bits + 64 * t.blocks.len() <= t.blocks.len() * room
            &&& t.peaks <= t.blocks.len() * room
            &&& t.v_bits == t.rounds * t.peaks
            &&& t.blocks.len() <= block_count(s.current.len(), s.window)
            &&& t.blocks.len() * room + 7 <= usize::MAX
            &&& s.layers.len() == 0 ==> t.blocks == coded_blocks(
                data,
                s.window,
                s.rounds,
                t.blocks.len(),
            )
        }),
{
    let block = piece(s.current, s.window, s.blocks.len() as int);
    let room = block_room(s.window, s.rounds);
    let t = with_block(s, sharp, flat);
    let count = coded_block(block, s.window, s.rounds).key.peaks.len();
    lemma_block_room(block, s.window, s.rounds);
    lemma_one_more_block(s.blocks.len(), block_count(s.current.len(), s.window), room);
    assert(s.rounds * (s.peaks + count) == s.rounds * s.peaks + s.rounds * count)
        by (nonlinear_arith);
    if s.layers.len() == 0 {
        assert(t.blocks =~= coded_blocks(data, s.window, s.rounds, t.blocks.len()));
    }
}

proof fn lemma_closed_layer(data: Seq<u8>, s: EncoderView, t: EncoderView)
    requires
        follows(data, s),
        !s.done,
        t.window == s.window,
        t.rounds == s.rounds,
        t.original == s.original,
        t.layers == s.layers,
        t.current == s.current,
        !t.done,
        t.blocks.len() == block_count(s.current.len(), s.window),
        t.k_bits + t.v_bits + 64 * t.blocks.len() + 7 <= usize::MAX,
        t.peaks <= usize::MAX,
        t.v_bits == t.rounds * t.peaks,
        s.current.len() <= usize::MAX,
        s.layers.len() == 0 ==> t.blocks == coded_blocks(data, s.window, s.rounds, t.blocks.len()),
    ensures
        follows(data, closed_layer(t)),
{
    let info = finished_info(t);
    let layer = LayerView { info, blocks: t.blocks };
    let u = closed_layer(t);
    let layers = s.layers.push(layer);
    let room = block_room(s.window, s.rounds);
    assert(0 * room == 0);
    assert(s.rounds * 0 == 0);
    if is_refused(info) {
        assert(u.layers == s.layers);
    } else {
        assert(u.layers == layers);
        assert forall|i: int| 0 < i < layers.len() implies shrinks((#[trigger] layers[i]).info) by {
            if i < s.layers.len() {
                assert(layers[i] == s.layers[i]);
            }
        }
        assert forall|i: int| 0 <= i < layers.len() implies log_is_complete((#[trigger] layers[i]).info)
            && layers[i].info.rounds == s.rounds by {
            if i < s.layers.len() {
                assert(layers[i] == s.layers[i]);
            }
        }
        assert forall|i: int| 0 <= i < layers.len() - 1 implies !is_last((#[trigger] layers[i]).info)
            && layers[i].info.output_bytes == layers[i + 1].info.input_bytes by {
            assert(layers[i] == s.layers[i]);
            if i < s.layers.len() - 1 {
                assert(layers[i + 1] == s.layers[i + 1]);
            }
        }
        if s.layers.len() > 0 {
            assert(layers[0] == s.layers[0]);
        }
        if !is_last(info) {
            lemma_fewer_blocks(info.output_bytes as nat, s.current.len(), s.window);
            lemma_fewer_blocks(info.output_bytes as nat, info.output_bytes as nat, s.window);
            let (a, b) = (
                block_count(info.output_bytes as nat, s.window),
                block_count(s.current.len(), s.window),
            );
            assert(a * room <= b * room) by (nonlinear_arith)
                requires
                    a <= b,
            ;
        }
    }
}

/// Every verdict leaves an encoder true to its file.
proof fn lemma_advanced(data: Seq<u8>, s: EncoderView, sharp: bool, flat: bool)
    requires
        follows(data, s),
        !s.done,
        s.current.len() <= usize::MAX,
    ensures
        follows(data, advanced(s, sharp, flat)),
        advanced(s, sharp, flat).current.len() <= usize::MAX,
{
    let t = with_block(s, sharp, flat);
    lemma_with_block(data, s, sharp, flat);
    if t.blocks.len() < block_count(s.current.len(), s.window) {
        assert(follows(data, t));
    } else {
        lemma_closed_layer(data, s, t);
    }
}

/// Whatever the verdicts are: the first layer holds the blocks of the file in
/// order, every layer logs one bit for each peak and round, every layer but
/// the last makes its data shorter by at least a tenth, each takes in what the
/// one before gave out, and every layer on top of others makes its data
/// shorter.
pub proof fn law_encoder_follows_file(
    data: Seq<u8>,
    window: nat,
    rounds: nat,
    verdicts: Seq<(bool, bool)>,
)
    requires
        is_pow2(window as int),
        64 <= window <= i64::MAX,
        window <= usize::MAX,
        rounds <= usize::MAX,
        data.len() <= usize::MAX,
        layers_fit(data.len(), window, rounds),
    ensures
        follows(data, run(file_start(data, window, rounds), verdicts)),
        run(file_start(data, window, rounds), verdicts).window == window,
        run(file_start(data, window, rounds), verdicts).rounds == rounds,
        run(file_start(data, window, rounds), verdicts).current.len() <= usize::MAX,
        forall|i: int|
            0 < i < run(file_start(data, window, rounds), verdicts).layers.len() ==> shrinks(
                (#[trigger] run(file_start(data, window, rounds), verdicts).layers[i]).info,
            ),
    decreases verdicts.len(),
{
    let s = file_start(data, window, rounds);
    if verdicts.len() == 0 {
        lemma_fewer_blocks(data.len(), data.len(), window);
        assert(0 * block_room(window, rounds) == 0);
        assert(rounds * 0 == 0);
        assert(s.blocks =~= coded_blocks(data, window, rounds, 0));
    } else {
        law_encoder_follows_file(data, window, rounds, verdicts.drop_last());
        let t = run(s, verdicts.drop_last());
        if !t.done {
            lemma_advanced(data, t, verdicts.last().0, verdicts.last().1);
        }
    }
}

/// The bits of encoded blocks: for each 240 bits, the index of every peak, and
/// the log.
pub open spec fn bits_of_blocks(blocks: Seq<CodedView>, log2: nat) -> nat
    decreases blocks.len(),
{
    if blocks.len() == 0 {
        0
    } else {
        bits_of_blocks(blocks.drop_last(), log2) + 240 + blocks.last().key.peaks.len() * log2
            + blocks.last().log.len()
    }
}

/// The bits of the logs of encoded blocks.
pub open spec fn bits_of_logs(blocks: Seq<CodedView>) -> nat
    decreases blocks.len(),
{
    if blocks.len() == 0 {
        0
    } else {
        bits_of_logs(blocks.drop_last()) + blocks.last().log.len()
    }
}

/// The peaks of encoded blocks.
pub open spec fn peaks_of_blocks(blocks: Seq<CodedView>) -> nat
    decreases blocks.len(),
{
    if blocks.len() == 0 {
        0
    } else {
        peaks_of_blocks(blocks.drop_last()) + blocks.last().key.peaks.len()
    }
}

/// What layer `i` takes in: the file, or as many bytes `0xAB` as the layer
/// before gives out.
pub open spec fn layer_input(data: Seq<u8>, layers: Seq<LayerView>, i: int) -> Seq<u8> {
    if i == 0 {
        data
    } else {
        Seq::new(layers[i - 1].info.output_bytes as nat, |k: int| 0xABu8)
    }
}

/// So many blocks of `2^log2` bits hold the data, and no fewer; without data
/// there is one.
pub open spec fn holds_just(n: int, len: int, log2: nat) -> bool {
    &&& n >= 1
    &&& 8 * len <= n * pow2(log2)
    &&& n > 1 ==> (n - 1) * pow2(log2) < 8 * len
}

/// The books of a layer: it holds the encoded blocks of what it takes in, and
/// its numbers are those of its blocks.
pub open spec fn books_close(
    input: Seq<u8>,
    layer: LayerView,
    i: int,
    log2: nat,
    rounds: nat,
) -> bool {
    let bits = bits_of_blocks(layer.blocks, log2);
    &&& layer.info.layer_idx == i
    &&& layer.info.rounds == rounds
    &&& layer.info.input_bytes == input.len()
    &&& layer.info.n_blocks == layer.blocks.len()
    &&& holds_just(layer.blocks.len() as int, input.len() as int, log2)
    &&& layer.blocks == coded_blocks(input, pow2(log2), rounds, layer.blocks.len())
    &&& layer.info.total_v_bits == bits_of_logs(layer.blocks)
    &&& layer.info.total_peaks == peaks_of_blocks(layer.blocks)
    &&& layer.info.total_k_bits + layer.info.total_v_bits + 64 * layer.blocks.len() == bits
    &&& bits <= 8 * layer.info.output_bytes < bits + 8
}

/// A layer saves at least a tenth of the bits it takes in.
pub open spec fn saves_a_tenth(layer: LayerView, log2: nat) -> bool {
    10 * bits_of_blocks(layer.blocks, log2) <= 72 * layer.info.input_bytes
}

/// A further layer on what the given layer gives out would not make it shorter.
pub open spec fn next_would_not_shrink(layer: LayerView, log2: nat, rounds: nat, n: int) -> bool {
    let given = Seq::new(layer.info.output_bytes as nat, |k: int| 0xABu8);
    &&& holds_just(n, given.len() as int, log2)
    &&& bits_of_blocks(coded_blocks(given, pow2(log2), rounds, n as nat), log2) > 8 * (given.len()
        - 1)
}

/// The books of an encoder.
pub open spec fn books(data: Seq<u8>, s: EncoderView, log2: nat, rounds: nat) -> bool {
    let count = s.layers.len() as int;
    &&& s.window == pow2(log2)
    &&& s.rounds == rounds
    &&& !s.done ==> {
        &&& s.current == layer_input(data, s.layers, count)
        &&& s.blocks == coded_blocks(s.current, pow2(log2), rounds, s.blocks.len())
        &&& s.v_bits == bits_of_logs(s.blocks)
        &&& s.peaks == peaks_of_blocks(s.blocks)
        &&& s.k_bits + s.v_bits + 64 * s.blocks.len() == bits_of_blocks(s.blocks, log2)
    }
    &&& forall|i: int|
        0 <= i < count ==> books_close(
            layer_input(data, s.layers, i),
            #[trigger] s.layers[i],
            i,
            log2,
            rounds,
        )
    &&& forall|i: int|
        0 <= i < count && (!s.done || i < count - 1) ==> saves_a_tenth(
            #[trigger] s.layers[i],
            log2,
        ) && s.layers[i].info.output_bytes < s.layers[i].info.input_bytes && i < 8
    &&& s.done ==> count > 0 && {
        let last = s.layers[count - 1];
        ||| !saves_a_tenth(last, log2)
        ||| last.info.output_bytes >= last.info.input_bytes
        ||| count == 9
        ||| exists|n: int| #[trigger] next_would_not_shrink(last, log2, rounds, n)
    }
}

/// As many blocks as are counted hold the data, and no fewer.
proof fn lemma_block_count_holds(len: nat, log2: nat)
    requires
        64 <= pow2(log2),
        pow2(log2) % 64 == 0,
    ensures
        holds_just(block_count(len, pow2(log2)) as int, len as int, log2),
{
    let w = pow2(log2) as int;
    let d = w / 8;
    let n = block_count(len, pow2(log2)) as int;
    if len > 0 {
        let q = (len - 1) / d;
        vstd::arithmetic::div_mod::lemma_fundamental_div_mod(len - 1, d);
        vstd::arithmetic::div_mod::lemma_div_pos_is_pos(len - 1, d);
        assert(n == q + 1);
        assert(n * w == 8 * (d * q) + 8 * d && (n - 1) * w == 8 * (d * q)) by (nonlinear_arith)
            requires
                n == q + 1,
                w == 8 * d,
        ;
    } else {
        assert(1 * w == w);
    }
}

proof fn lemma_books_of_block(
    data: Seq<u8>,
    s: EncoderView,
    log2: nat,
    rounds: nat,
    sharp: bool,
    flat: bool,
)
    requires
        books(data, s, log2, rounds),
        !s.done,
    ensures
        ({
            let t = with_block(s, sharp, flat);
            &&& t.blocks == coded_blocks(s.current, pow2(log2), rounds, t.blocks.len())
            &&& t.v_bits == bits_of_logs(t.blocks)
            &&& t.peaks == peaks_of_blocks(t.blocks)
            &&& t.k_bits + t.v_bits + 64 * t.blocks.len() == bits_of_blocks(t.blocks, log2)
        }),
{
    reveal(coded_block);
    crate::keygen::law_index_bits(log2);
    let t = with_block(s, sharp, flat);
    assert(t.blocks.drop_last() =~= s.blocks);
    assert(t.blocks =~= coded_blocks(s.current, pow2(log2), rounds, t.blocks.len()));
    let coded = coded_block(piece(s.current, s.window, s.blocks.len() as int), s.window, s.rounds);
    assert(t.blocks.last() == coded);
    assert(coded.key.window_bits == pow2(log2));
}

proof fn lemma_books_of_layer(
    data: Seq<u8>,
    s: EncoderView,
    t: EncoderView,
    log2: nat,
    rounds: nat,
)
    requires
        follows(data, s),
        books(data, s, log2, rounds),
        !s.done,
        t.window == s.window,
        t.rounds == s.rounds,
        t.layers == s.layers,
        t.current == s.current,
        t.blocks.len() == block_count(s.current.len(), s.window),
        t.k_bits + t.v_bits + 64 * t.blocks.len() + 7 <= usize::MAX,
        t.peaks <= usize::MAX,
        s.current.len() <= usize::MAX,
        t.blocks == coded_blocks(s.current, pow2(log2), rounds, t.blocks.len()),
        t.v_bits == bits_of_logs(t.blocks),
        t.peaks == peaks_of_blocks(t.blocks),
        t.k_bits + t.v_bits + 64 * t.blocks.len() == bits_of_blocks(t.blocks, log2),
    ensures
        books(data, closed_layer(t), log2, rounds),
{
    let info = finished_info(t);
    let layer = LayerView { info, blocks: t.blocks };
    let u = closed_layer(t);
    let layers = s.layers.push(layer);
    let count = s.layers.len() as int;
    lemma_sixty_fourth(s.window);
    lemma_block_count_holds(s.current.len(), log2);
    assert(books_close(layer_input(data, s.layers, count), layer, count, log2, rounds));
    if is_refused(info) {
        let last = s.layers[count - 1];
        assert(s.current == Seq::new(last.info.output_bytes as nat, |k: int| 0xABu8));
        assert(s.current.len() == last.info.output_bytes);
        assert(next_would_not_shrink(last, log2, rounds, t.blocks.len() as int));
        assert(books(data, u, log2, rounds));
    } else {
        assert(u.layers == layers);
        assert forall|i: int| 0 <= i < layers.len() implies books_close(
            layer_input(data, layers, i),
            #[trigger] layers[i],
            i,
            log2,
            rounds,
        ) by {
            if i > 0 {
                assert(layers[i - 1] == s.layers[i - 1]);
            }
            assert(layer_input(data, layers, i) == layer_input(data, s.layers, i));
            if i < count {
                assert(layers[i] == s.layers[i]);
            }
        }
        assert forall|i: int| 0 <= i < count implies saves_a_tenth(#[trigger] layers[i], log2)
            && layers[i].info.output_bytes < layers[i].info.input_bytes && i < 8 by {
            assert(layers[i] == s.layers[i]);
        }
        assert(layers[count] == layer);
        assert(output_bits(info) == bits_of_blocks(t.blocks, log2));
        if !is_last(info) {
            assert(u.current == layer_input(data, layers, count + 1));
            assert(u.blocks =~= coded_blocks(u.current, pow2(log2), rounds, 0));
        }
        assert(books(data, u, log2, rounds));
    }
}

proof fn lemma_books_kept(
    data: Seq<u8>,
    log2: nat,
    rounds: nat,
    verdicts: Seq<(bool, bool)>,
)
    requires
        64 <= pow2(log2) <= i64::MAX,
        is_pow2(pow2(log2) as int),
        pow2(log2) <= usize::MAX,
        rounds <= usize::MAX,
        data.len() <= usize::MAX,
        layers_fit(data.len(), pow2(log2), rounds),
    ensures
        books(data, run(file_start(data, pow2(log2), rounds), verdicts), log2, rounds),
    decreases verdicts.len(),
{
    let s = file_start(data, pow2(log2), rounds);
    if verdicts.len() == 0 {
        assert(s.blocks =~= coded_blocks(data, pow2(log2), rounds, 0));
    } else {
        lemma_books_kept(data, log2, rounds, verdicts.drop_last());
        law_encoder_follows_file(data, pow2(log2), rounds, verdicts.drop_last());
        let t = run(s, verdicts.drop_last());
        if !t.done {
            let (sharp, flat) = verdicts.last();
            let u = with_block(t, sharp, flat);
            lemma_with_block(data, t, sharp, flat);
            lemma_books_of_block(data, t, log2, rounds, sharp, flat);
            if u.blocks.len() < block_count(t.current.len(), t.window) {
                assert(books(data, u, log2, rounds));
            } else {
                lemma_books_of_layer(data, t, u, log2, rounds);
            }
        }
    }
}

/// The books of a file, whatever the verdicts are. Every layer holds the
/// encoded blocks of what it takes in, as few as hold it, and its numbers are
/// those of its blocks. Every layer but the last saves at least a tenth of what
/// it takes in. A finished archive has a layer, and its last layer saves less
/// than a tenth, or does not make its data shorter, or is the ninth, or a
/// further layer would not make its output shorter.
pub proof fn law_books_of_file(
    data: Seq<u8>,
    log2: nat,
    rounds: nat,
    verdicts: Seq<(bool, bool)>,
    i: int,
)
    requires
        64 <= pow2(log2) <= i64::MAX,
        pow2(log2) <= usize::MAX,
        rounds <= usize::MAX,
        data.len() <= usize::MAX,
        layers_fit(data.len(), pow2(log2), rounds),
        0 <= i < run(file_start(data, pow2(log2), rounds), verdicts).layers.len(),
    ensures
        ({
            let s = run(file_start(data, pow2(log2), rounds), verdicts);
            let (layer, count) = (s.layers[i], s.layers.len());
            &&& count <= 9
            &&& books_close(layer_input(data, s.layers, i), layer, i, log2, rounds)
            &&& i < count - 1 || !s.done ==> 10 * bits_of_blocks(layer.blocks, log2) <= 72
                * layer.info.input_bytes && layer.info.output_bytes < layer.info.input_bytes && i
                < 8
            &&& i == count - 1 && s.done ==> {
                ||| 10 * bits_of_blocks(layer.blocks, log2) > 72 * layer.info.input_bytes
                ||| layer.info.output_bytes >= layer.info.input_bytes
                ||| i == 8
                ||| exists|n: int| #[trigger] next_would_not_shrink(layer, log2, rounds, n)
            }
        }),
{
    crate::keygen::lemma_pow2_is_pow2(log2);
    lemma_books_kept(data, log2, rounds, verdicts);
    law_encoder_follows_file(data, pow2(log2), rounds, verdicts);
}

/// A finished archive has a layer.
pub proof fn law_finished_file_has_a_layer(
    data: Seq<u8>,
    log2: nat,
    rounds: nat,
    verdicts: Seq<(bool, bool)>,
)
    requires
        64 <= pow2(log2) <= i64::MAX,
        pow2(log2) <= usize::MAX,
        rounds <= usize::MAX,
        data.len() <= usize::MAX,
        layers_fit(data.len(), pow2(log2), rounds),
        run(file_start(data, pow2(log2), rounds), verdicts).done,
    ensures
        run(file_start(data, pow2(log2), rounds), verdicts).layers.len() >= 1,
{
    crate::keygen::lemma_pow2_is_pow2(log2);
    lemma_books_kept(data, log2, rounds, verdicts);
}

/// The window follows the verdicts: a sharp spectrum doubles it up to 2^20 bits,
/// a flat one halves it down to 64, and the encoder keeps the least and the
/// greatest window that came up. A closed layer reports the two, and the next
/// layer starts from the window that the file was started with.
pub proof fn law_windows_are_reported(s: EncoderView, sharp: bool, flat: bool)
    requires
        s.low <= s.adapted <= s.high,
        s.high <= usize::MAX,
        0x10_0000 <= usize::MAX,
    ensures
        ({
            let t = with_block(s, sharp, flat);
            let (u, info) = (closed_layer(t), finished_info(t));
            &&& sharp && 2 * s.adapted <= 0x10_0000 ==> t.adapted == 2 * s.adapted
            &&& !sharp && flat && s.adapted >= 128 ==> t.adapted == s.adapted / 2
            &&& !sharp && !flat ==> t.adapted == s.adapted
            &&& t.low <= t.adapted <= t.high
            &&& t.low <= s.low && s.high <= t.high
            &&& t.low == s.low || t.low == t.adapted
            &&& t.high == s.high || t.high == t.adapted
            &&& t.high <= usize::MAX ==> info.window_min == t.low && info.window_max == t.high
            &&& !u.done ==> u.adapted == s.window && u.low == s.window && u.high == s.window
        }),
{
}

/// A block of a file is encoded with the key that is synthesised for it, by as
/// many rounds as the file was started with; its log holds one bit for every
/// peak of the key and every round.
pub proof fn law_block_gets_its_own_key(block: Seq<u8>, log2: nat, rounds: nat)
    requires
        64 <= pow2(log2) <= i64::MAX,
        pow2(log2) <= usize::MAX,
    ensures
        ({
            let b = coded_block(block, pow2(log2), rounds);
            &&& b.key == synthesized(block, pow2(log2))
            &&& b.log.len() == rounds * b.key.peaks.len()
            &&& 64 * b.words.len() == pow2(log2)
            &&& (b.words, b.log) == rounds_of(
                words_of(window_bytes(block, b.words.len())),
                b.key,
                rounds,
            )
        }),
{
    reveal(coded_block);
    crate::keygen::lemma_pow2_is_pow2(log2);
    lemma_block_room(block, pow2(log2), rounds);
    lemma_sixty_fourth(pow2(log2));
    crate::operator::law_log_length(
        words_of(window_bytes(block, pow2(log2) / 64)),
        synthesized(block, pow2(log2)),
        rounds,
    );
}

} // verus!
