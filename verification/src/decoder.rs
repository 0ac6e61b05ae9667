//! The decoder of layered archives.
//!
//! The first layer holds the blocks of the file itself; each is decoded with
//! its key and its branch log.
use vstd::prelude::*;
use vstd::arithmetic::power2::is_pow2;
use crate::encoder::{
    block_count, coded_block, coded_blocks, coded_views, file_start, layer_views, layers_fit,
    layers_wf, logs_wf, piece, run, Archive, CodedView, EncodedBlock, LayerView,
};
use crate::kernel::topology::chunk;
use crate::operator::{decode_block, unrounds, window_bytes, window_words};
use crate::words::word_bytes;

verus! {

/// The bytes that an encoded block stands for.
pub open spec fn decoded_piece(b: CodedView, rounds: nat) -> Seq<u8> {
    word_bytes(unrounds(window_words(b.words, b.key.window_bits / 64), b.key, b.log, rounds))
}

/// The bytes that a run of blocks stands for.
pub open spec fn decoded_pieces(blocks: Seq<CodedView>, rounds: nat) -> Seq<u8>
    decreases blocks.len(),
{
    if blocks.len() == 0 {
        Seq::empty()
    } else {
        decoded_pieces(blocks.drop_last(), rounds) + decoded_piece(blocks.last(), rounds)
    }
}

/// The bytes of a file, cut to its length.
pub open spec fn decoded_file(layers: Seq<LayerView>, original: nat) -> Seq<u8> {
    if layers.len() == 0 {
        Seq::empty()
    } else {
        let all = decoded_pieces(layers[0].blocks, layers[0].info.rounds as nat);
        if original < all.len() {
            all.take(original as int)
        } else {
            all
        }
    }
}

/// The block has a window that can be decoded, and its log covers every round.
pub open spec fn decodable(b: CodedView, rounds: nat) -> bool {
    &&& is_pow2(b.key.window_bits as int / 64)
    &&& rounds * b.key.peaks.len() <= usize::MAX
    &&& forall|t: int, j: int|
        0 <= t < rounds && 0 <= j < b.key.peaks.len() && (#[trigger] b.key.peaks[j]) < 64 * (
        b.key.window_bits / 64) ==> #[trigger] (t * b.key.peaks.len()) + j < b.log.len()
}

/// Decodes one block.
fn decode_piece(block: &EncodedBlock, rounds: usize) -> (out: Vec<u8>)
    requires
        block.branch.wf(),
        decodable(block@, rounds as nat),
    ensures
        out@ == decoded_piece(block@, rounds as nat),
{
    assert forall|t: int, j: int|
        0 <= t < rounds && 0 <= j < block.key.peak_indices@.len() && (
        #[trigger] block.key.peak_indices@[j]) < 64 * (block.key.window_bits / 64) implies
        #[trigger] (t * block.key.peak_indices@.len()) + j < block.branch@.len() by {
        let peaks = block@.key.peaks;
        assert(peaks[j] < 64 * (block@.key.window_bits / 64));
        assert((t * peaks.len()) + j < block@.log.len());
    }
    decode_block(block.transformed.as_slice(), &block.key, &block.branch, rounds)
}

/// Decodes a layered archive.
pub fn decode_file(archive: &Archive) -> (out: Vec<u8>)
    requires
        layers_wf(archive.layers@),
        archive.layers@.len() > 0 ==> forall|i: int|
            0 <= i < archive.layers@[0].blocks@.len() ==> decodable(
                (#[trigger] archive.layers@[0].blocks@[i])@,
                archive.layers@[0].info.rounds as nat,
            ),
    ensures
        out@ == decoded_file(layer_views(archive.layers@), archive.original_bytes as nat),
{
    let mut out: Vec<u8> = Vec::new();
    if archive.layers.len() == 0 {
        return out;
    }
    let layer = &archive.layers[0];
    let n: usize = layer.blocks.len();
    let rounds: usize = layer.info.rounds;
    let ghost all = coded_views(layer.blocks@);
    assert(logs_wf(layer.blocks@)) by {
        assert(logs_wf(archive.layers@[0].blocks@));
    }
    assert(all.take(0) =~= Seq::empty());
    for i in 0..n
        invariant
            n == layer.blocks@.len(),
            rounds == layer.info.rounds,
            all == coded_views(layer.blocks@),
            logs_wf(layer.blocks@),
            forall|k: int|
                0 <= k < layer.blocks@.len() ==> decodable(
                    (#[trigger] layer.blocks@[k])@,
                    rounds as nat,
                ),
            out@ == decoded_pieces(all.take(i as int), rounds as nat),
    {
        assert(all.take(i + 1).drop_last() =~= all.take(i as int));
        assert(all.take(i + 1).last() == layer.blocks@[i as int]@);
        let decoded = decode_piece(&layer.blocks[i], rounds);
        let ghost before = out@;
        out.extend_from_slice(decoded.as_slice());
        assert(out@ =~= before + decoded@);
    }
    assert(all.take(n as int) =~= all);
    assert(layer_views(archive.layers@)[0] == layer@);
    if archive.original_bytes < out.len() {
        out.truncate(archive.original_bytes);
    }
    out
}

/// A block of the encoder can be decoded, and gives back what it was made
/// from.
proof fn lemma_coded_block(block: Seq<u8>, window: nat, rounds: nat)
    requires
        is_pow2(window as int),
        64 <= window <= i64::MAX,
        window <= usize::MAX,
        rounds * window <= usize::MAX,
    ensures
        decodable(coded_block(block, window, rounds), rounds),
        decoded_piece(coded_block(block, window, rounds), rounds) == window_bytes(
            block,
            window / 64,
        ),
{
    reveal(coded_block);
    let b = coded_block(block, window, rounds);
    let k = b.key;
    let count = k.peaks.len();
    crate::encoder::lemma_sixty_fourth(window);
    crate::keygen::law_taken_peaks_pay(block, window);
    crate::keygen::law_taken_peaks_are_distinct(block, window);
    crate::operator::law_block_roundtrip(block, k, rounds);
    assert(count <= window) by (nonlinear_arith)
        requires
            count * crate::keygen::index_bits(window) + count <= window,
            0 <= count,
    ;
    assert(rounds * count <= rounds * window) by (nonlinear_arith)
        requires
            count <= window,
    ;
    assert forall|t: int, j: int|
        0 <= t < rounds && 0 <= j < count && (#[trigger] k.peaks[j]) < 64 * (k.window_bits
            / 64) implies #[trigger] (t * count) + j < b.log.len() by {
        assert((t + 1) * count <= rounds * count) by (nonlinear_arith)
            requires
                t + 1 <= rounds,
        ;
        assert((t + 1) * count == t * count + count) by (nonlinear_arith);
    }
}

/// The first blocks of a file, decoded, are the front of the file, filled with
/// zeros to whole windows.
proof fn lemma_decoded_pieces(data: Seq<u8>, window: nat, rounds: nat, n: nat)
    requires
        is_pow2(window as int),
        64 <= window <= i64::MAX,
        window <= usize::MAX,
        rounds * window <= usize::MAX,
        n <= block_count(data.len(), window),
    ensures
        ({
            let all = decoded_pieces(coded_blocks(data, window, rounds, n), rounds);
            &&& all.len() == n * (window / 8)
            &&& forall|p: int|
                0 <= p < all.len() && p < data.len() ==> #[trigger] all[p] == data[p]
        }),
    decreases n,
{
    let d = (window / 8) as int;
    crate::encoder::lemma_sixty_fourth(window);
    if n == 0 {
        assert(0 * d == 0);
    } else {
        let m = (n - 1) as nat;
        let blocks = coded_blocks(data, window, rounds, n);
        let front = decoded_pieces(coded_blocks(data, window, rounds, m), rounds);
        let own = piece(data, window, m as int);
        lemma_decoded_pieces(data, window, rounds, m);
        assert(blocks.drop_last() =~= coded_blocks(data, window, rounds, m));
        lemma_coded_block(own, window, rounds);
        assert(window_bytes(own, window / 64) =~= own);
        let all = decoded_pieces(blocks, rounds);
        assert(all == front + own);
        assert(n * d == m * d + d) by (nonlinear_arith)
            requires
                n == m + 1,
        ;
        let cut = chunk(data, window / 8, m as int);
        assert(0 <= m * d) by (nonlinear_arith)
            requires
                d > 0,
        ;
        if data.len() > 0 {
            let q = (data.len() - 1) / d;
            vstd::arithmetic::div_mod::lemma_fundamental_div_mod(data.len() - 1, d);
            assert(m * d <= d * q) by (nonlinear_arith)
                requires
                    m <= q,
                    d > 0,
            ;
        } else {
            assert(m == 0);
            assert(0 * d == 0);
        }
        assert forall|p: int| 0 <= p < all.len() && p < data.len() implies #[trigger] all[p]
            == data[p] by {
            if p >= front.len() {
                let j = p - m * d;
                assert(own[j] == cut[j]);
            }
        }
    }
}

/// Whatever the verdicts were, decoding a finished archive gives the file
/// back.
pub proof fn law_file_roundtrip(
    data: Seq<u8>,
    window: nat,
    rounds: nat,
    verdicts: Seq<(bool, bool)>,
)
    requires
        is_pow2(window as int),
        64 <= window <= i64::MAX,
        window <= usize::MAX,
        rounds <= usize::MAX,
        data.len() <= usize::MAX,
        layers_fit(data.len(), window, rounds),
        run(file_start(data, window, rounds), verdicts).done,
    ensures
        ({
            let s = run(file_start(data, window, rounds), verdicts);
            &&& decoded_file(s.layers, s.original) == data
            &&& forall|i: int|
                0 <= i < s.layers[0].blocks.len() ==> decodable(
                    #[trigger] s.layers[0].blocks[i],
                    s.layers[0].info.rounds as nat,
                )
        }),
{
    let s = run(file_start(data, window, rounds), verdicts);
    crate::encoder::law_encoder_follows_file(data, window, rounds, verdicts);
    let n = block_count(data.len(), window);
    let room = crate::encoder::block_room(window, rounds);
    assert(rounds * window <= usize::MAX) by {
        assert((rounds + 1) * window == rounds * window + window) by (nonlinear_arith);
        assert(n >= 1) by {
            if data.len() > 0 {
                vstd::arithmetic::div_mod::lemma_div_pos_is_pos(
                    data.len() - 1,
                    window as int / 8,
                );
            }
        }
        assert(room <= n * room) by (nonlinear_arith)
            requires
                n >= 1,
                0 <= room,
        ;
    }
    lemma_decoded_pieces(data, window, rounds, n);
    let all = decoded_pieces(s.layers[0].blocks, rounds);
    let d = (window / 8) as int;
    assert(n * d >= data.len()) by {
        if data.len() > 0 {
            let q = (data.len() - 1) / d;
            vstd::arithmetic::div_mod::lemma_fundamental_div_mod(data.len() - 1, d);
            assert((q + 1) * d == d * q + d) by (nonlinear_arith);
        } else {
            assert(0 <= n * d) by (nonlinear_arith)
                requires
                    d > 0,
            ;
        }
    }
    assert(decoded_file(s.layers, s.original) =~= data);
    assert forall|i: int| 0 <= i < s.layers[0].blocks.len() implies decodable(
        #[trigger] s.layers[0].blocks[i],
        s.layers[0].info.rounds as nat,
    ) by {
        lemma_coded_block(piece(data, window, i), window, rounds);
    }
}

} // verus!
