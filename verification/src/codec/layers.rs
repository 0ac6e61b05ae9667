//! Archives of several layers, each the compressed form of the one before.
use vstd::prelude::*;
use vstd::arithmetic::power2::{lemma2_to64, lemma2_to64_rest};
use crate::bitstream::ceil_div;
use crate::codec::archive::{
    compress_single_layer_bytes, decoded_layer, decompress_single_layer_bytes, expect_exact_magic,
    law_archive_has_no_tail, law_layer_header, law_single_layer_roundtrip, magic_at, magic_single, parse_archive, parsed_archive, safe_size,
    single_layer, single_magic, BASE_VERSION,
};
use crate::codec::cursor::{
    byte_at, counted_at, lemma_byte_read, lemma_byte_stands, lemma_counted_read,
    lemma_counted_stands, lemma_number_read, lemma_number_stands, lemma_stands_join,
    lemma_stands_split, number_at, read_counted, read_u32, read_u64, read_u8, stands_at,
};
use crate::codec::sizes::{candidate_block_sizes, candidate_sizes, law_candidate_sizes, law_sizes_ascend};
use crate::codec::wire::counted;
use crate::model::LayerSummary;
use crate::text::{decimal, numbered, outcome};
use crate::words::{le_bytes, lemma_le_bytes_len, push_u32, push_u64};

verus! {

/// How many layers an archive has at most.
pub const MAX_LAYERS: usize = 16;

/// The characters `PACKREC1`, which open an archive of several layers.
pub open spec fn multi_magic() -> Seq<u8> {
    seq![0x50u8, 0x41, 0x43, 0x4B, 0x52, 0x45, 0x43, 0x31]
}

/// The characters `PACKREC1`.
pub fn magic_multi() -> (m: [u8; 8])
    ensures
        m@ == multi_magic(),
{
    let m: [u8; 8] = [0x50, 0x41, 0x43, 0x4B, 0x52, 0x45, 0x43, 0x31];
    assert(m@ =~= multi_magic());
    m
}

/// A layer's summary as it is written.
pub open spec fn summary_wire(l: LayerSummary) -> Seq<u8> {
    le_bytes(l.block_size_bytes as nat, 4) + le_bytes(l.input_size as nat, 8) + le_bytes(
        l.output_size as nat,
        8,
    )
}

/// Summaries as they are written.
pub open spec fn summaries_wire(layers: Seq<LayerSummary>) -> Seq<u8>
    decreases layers.len(),
{
    if layers.len() == 0 {
        Seq::empty()
    } else {
        summaries_wire(layers.drop_last()) + summary_wire(layers.last())
    }
}

/// An archive of several layers as it is written.
pub open spec fn recursive_wire(
    original_size: u64,
    layers: Seq<LayerSummary>,
    payload: Seq<u8>,
) -> Seq<u8> {
    multi_magic() + seq![BASE_VERSION] + le_bytes(original_size as nat, 8) + le_bytes(
        layers.len(),
        4,
    ) + summaries_wire(layers) + counted(payload, 8)
}

/// Writes an archive of several layers.
pub fn serialize_recursive_archive(
    original_size: u64,
    layer_summaries: &[LayerSummary],
    final_payload: &[u8],
) -> (out: Vec<u8>)
    ensures
        out@ == recursive_wire(original_size, layer_summaries@, final_payload@),
{
    let mut out: Vec<u8> = Vec::new();
    let magic = magic_multi();
    out.extend_from_slice(magic.as_slice());
    out.push(BASE_VERSION);
    push_u64(&mut out, original_size);
    let n: usize = layer_summaries.len();
    crate::words::push_le(&mut out, n as u64, 4);
    let ghost head = multi_magic() + seq![BASE_VERSION] + le_bytes(original_size as nat, 8)
        + le_bytes(n as nat, 4);
    assert(layer_summaries@.take(0) =~= Seq::empty());
    assert(out@ =~= head + summaries_wire(layer_summaries@.take(0)));
    for i in 0..n
        invariant
            n == layer_summaries@.len(),
            out@ == head + summaries_wire(layer_summaries@.take(i as int)),
    {
        let l = layer_summaries[i];
        push_u32(&mut out, l.block_size_bytes);
        push_u64(&mut out, l.input_size);
        push_u64(&mut out, l.output_size);
        assert(layer_summaries@.take(i + 1).drop_last() =~= layer_summaries@.take(i as int));
        assert(out@ =~= head + summaries_wire(layer_summaries@.take(i + 1)));
    }
    assert(layer_summaries@.take(n as int) =~= layer_summaries@);
    push_u64(&mut out, final_payload.len() as u64);
    out.extend_from_slice(final_payload);
    assert(out@ =~= recursive_wire(original_size, layer_summaries@, final_payload@));
    out
}

/// An archive of several layers.
#[derive(Clone, Debug, Eq, PartialEq)]
pub struct RecursiveArchive {
    pub original_size: u64,
    pub layer_summaries: Vec<LayerSummary>,
    pub final_payload: Vec<u8>,
}

/// An archive of several layers as mathematical values.
#[verifier::ext_equal]
pub struct RecursiveView {
    pub original_size: u64,
    pub layers: Seq<LayerSummary>,
    pub payload: Seq<u8>,
}

impl View for RecursiveArchive {
    type V = RecursiveView;

    open spec fn view(&self) -> RecursiveView {
        RecursiveView {
            original_size: self.original_size,
            layers: self.layer_summaries@,
            payload: self.final_payload@,
        }
    }
}

/// The summary at `at`, and the place behind it.
pub open spec fn summary_at(s: Seq<u8>, at: int) -> Result<(LayerSummary, int), Seq<char>> {
    match number_at(s, at, 4) {
        Err(e) => Err(e),
        Ok((size, a1)) => match number_at(s, a1, 8) {
            Err(e) => Err(e),
            Ok((input, a2)) => match number_at(s, a2, 8) {
                Err(e) => Err(e),
                Ok((output, a3)) => Ok(
                    (
                        LayerSummary {
                            block_size_bytes: size as u32,
                            input_size: input as u64,
                            output_size: output as u64,
                        },
                        a3,
                    ),
                ),
            },
        },
    }
}

/// The `count` summaries at `at` behind those already known, and the place
/// behind them.
pub open spec fn summaries_at(
    s: Seq<u8>,
    at: int,
    count: nat,
    known: Seq<LayerSummary>,
) -> Result<(Seq<LayerSummary>, int), Seq<char>>
    decreases count,
{
    if count == 0 {
        Ok((known, at))
    } else {
        match summary_at(s, at) {
            Err(e) => Err(e),
            Ok((l, next)) => summaries_at(s, next, (count - 1) as nat, known.push(l)),
        }
    }
}

/// Each layer takes in what the one before gave out.
pub open spec fn chained(layers: Seq<LayerSummary>) -> bool {
    forall|i: int|
        0 < i < layers.len() ==> layers[i - 1].output_size == (#[trigger] layers[i]).input_size
}

/// A layer has a block size and makes its input shorter.
pub open spec fn layer_shrinks(l: LayerSummary) -> bool {
    l.block_size_bytes != 0 && l.output_size < l.input_size
}

/// What is wrong with the sizes that an archive states, if anything.
pub open spec fn chain_fault(
    original_size: u64,
    layers: Seq<LayerSummary>,
    final_payload_size: nat,
) -> Option<Seq<char>> {
    if layers.len() == 0 {
        if final_payload_size != original_size {
            Some("raw recursive payload size does not match original size"@)
        } else {
            None
        }
    } else if layers[0].input_size != original_size {
        Some("first layer input size does not match original size"@)
    } else if !chained(layers) {
        Some("recursive layer size chain is inconsistent"@)
    } else if layers.last().output_size != final_payload_size {
        Some("final payload size does not match last layer"@)
    } else if exists|i: int| 0 <= i < layers.len() && !layer_shrinks(#[trigger] layers[i]) {
        Some("recursive layer metadata violates compression invariants"@)
    } else {
        None
    }
}

/// Checks the sizes that an archive states.
pub fn validate_layer_chain(
    original_size: u64,
    layers: &[LayerSummary],
    final_payload_size: u64,
) -> (r: Result<(), String>)
    ensures
        match r {
            Ok(_) => chain_fault(original_size, layers@, final_payload_size as nat) is None,
            Err(e) => chain_fault(original_size, layers@, final_payload_size as nat) == Some(e@),
        },
{
    let n: usize = layers.len();
    if n == 0 {
        if final_payload_size != original_size {
            return Err("raw recursive payload size does not match original size".to_string());
        }
        return Ok(());
    }
    if layers[0].input_size != original_size {
        return Err("first layer input size does not match original size".to_string());
    }
    for i in 1..n
        invariant
            n == layers@.len(),
            n > 0,
            layers@[0].input_size == original_size,
            forall|k: int|
                0 < k < i ==> layers@[k - 1].output_size == (#[trigger] layers@[k]).input_size,
    {
        if layers[i - 1].output_size != layers[i].input_size {
            assert(!chained(layers@)) by {
                assert(layers@[i - 1].output_size != layers@[i as int].input_size);
            }
            return Err("recursive layer size chain is inconsistent".to_string());
        }
    }
    if layers[n - 1].output_size != final_payload_size {
        return Err("final payload size does not match last layer".to_string());
    }
    for i in 0..n
        invariant
            n == layers@.len(),
            n > 0,
            layers@[0].input_size == original_size,
            chained(layers@),
            layers@.last().output_size == final_payload_size,
            forall|k: int| 0 <= k < i ==> layer_shrinks(#[trigger] layers@[k]),
    {
        if layers[i].block_size_bytes == 0 || layers[i].output_size >= layers[i].input_size {
            assert(!layer_shrinks(layers@[i as int]));
            return Err("recursive layer metadata violates compression invariants".to_string());
        }
    }
    Ok(())
}

/// The archive of several layers that the bytes hold.
pub open spec fn parsed_recursive(s: Seq<u8>) -> Result<RecursiveView, Seq<char>> {
    match magic_at(s, multi_magic()) {
        Err(e) => Err(e),
        Ok(a1) => match byte_at(s, a1) {
            Err(e) => Err(e),
            Ok((base_version, a2)) => if base_version != BASE_VERSION {
                Err("unsupported base version: "@ + decimal(base_version as nat))
            } else {
                match number_at(s, a2, 8) {
                    Err(e) => Err(e),
                    Ok((original_size, a3)) => match number_at(s, a3, 4) {
                        Err(e) => Err(e),
                        Ok((count, a4)) => if count > MAX_LAYERS {
                            Err("layer count exceeds configured maximum"@)
                        } else {
                            match summaries_at(s, a4, count, Seq::empty()) {
                                Err(e) => Err(e),
                                Ok((layers, a5)) => match counted_at(s, a5, 8) {
                                    Err(e) => Err(e),
                                    Ok((payload, end)) => if end != s.len() {
                                        Err("archive contains trailing bytes"@)
                                    } else {
                                        match chain_fault(
                                            original_size as u64,
                                            layers,
                                            payload.len(),
                                        ) {
                                            Some(e) => Err(e),
                                            None => Ok(
                                                RecursiveView {
                                                    original_size: original_size as u64,
                                                    layers,
                                                    payload,
                                                },
                                            ),
                                        }
                                    },
                                },
                            }
                        },
                    },
                }
            },
        },
    }
}

fn parse_summary(input: &[u8], at: usize) -> (r: Result<(LayerSummary, usize), String>)
    ensures
        match r {
            Ok((l, next)) => summary_at(input@, at as int) == Ok::<(LayerSummary, int), Seq<char>>(
                (l, next as int),
            ) && next <= input@.len(),
            Err(e) => summary_at(input@, at as int) == Err::<(LayerSummary, int), Seq<char>>(e@),
        },
{
    let (block_size_bytes, a1) = match read_u32(input, at) {
        Ok(p) => p,
        Err(e) => return Err(e),
    };
    let (input_size, a2) = match read_u64(input, a1) {
        Ok(p) => p,
        Err(e) => return Err(e),
    };
    let (output_size, a3) = match read_u64(input, a2) {
        Ok(p) => p,
        Err(e) => return Err(e),
    };
    Ok((LayerSummary { block_size_bytes, input_size, output_size }, a3))
}

fn parse_summaries(input: &[u8], start: usize, count: u32) -> (r: Result<
    (Vec<LayerSummary>, usize),
    String,
>)
    ensures
        match r {
            Ok((layers, next)) => summaries_at(
                input@,
                start as int,
                count as nat,
                Seq::empty(),
            ) == Ok::<(Seq<LayerSummary>, int), Seq<char>>((layers@, next as int)),
            Err(e) => summaries_at(input@, start as int, count as nat, Seq::empty()) == Err::<
                (Seq<LayerSummary>, int),
                Seq<char>,
            >(e@),
        },
{
    let mut layers: Vec<LayerSummary> = Vec::new();
    let mut at: usize = start;
    for i in 0..count
        invariant
            summaries_at(input@, start as int, count as nat, Seq::empty()) == summaries_at(
                input@,
                at as int,
                (count - i) as nat,
                layers@,
            ),
    {
        match parse_summary(input, at) {
            Ok((l, next)) => {
                layers.push(l);
                at = next;
            },
            Err(e) => return Err(e),
        }
    }
    Ok((layers, at))
}

/// Reads an archive of several layers.
pub fn parse_recursive_archive(input: &[u8]) -> (r: Result<RecursiveArchive, String>)
    ensures
        outcome(r) == parsed_recursive(input@),
{
    let magic = magic_multi();
    let a1 = match expect_exact_magic(input, magic.as_slice()) {
        Ok(p) => p,
        Err(e) => return Err(e),
    };
    let (base_version, a2) = match read_u8(input, a1) {
        Ok(p) => p,
        Err(e) => return Err(e),
    };
    if base_version != BASE_VERSION {
        return Err(numbered("unsupported base version: ", base_version));
    }
    let (original_size, a3) = match read_u64(input, a2) {
        Ok(p) => p,
        Err(e) => return Err(e),
    };
    let (count, a4) = match read_u32(input, a3) {
        Ok(p) => p,
        Err(e) => return Err(e),
    };
    if count as u64 > MAX_LAYERS as u64 {
        return Err("layer count exceeds configured maximum".to_string());
    }
    let (layer_summaries, a5) = match parse_summaries(input, a4, count) {
        Ok(p) => p,
        Err(e) => return Err(e),
    };
    let (final_payload, end) = match read_counted(input, a5, 8) {
        Ok(p) => p,
        Err(e) => return Err(e),
    };
    if end != input.len() {
        return Err("archive contains trailing bytes".to_string());
    }
    match validate_layer_chain(
        original_size,
        layer_summaries.as_slice(),
        final_payload.len() as u64,
    ) {
        Ok(_) => Ok(RecursiveArchive { original_size, layer_summaries, final_payload }),
        Err(e) => Err(e),
    }
}

/// How long summaries are.
proof fn lemma_summaries_len(layers: Seq<LayerSummary>)
    ensures
        summaries_wire(layers).len() == 20 * layers.len(),
    decreases layers.len(),
{
    if layers.len() > 0 {
        let l = layers.last();
        lemma_summaries_len(layers.drop_last());
        lemma_le_bytes_len(l.block_size_bytes as nat, 4);
        lemma_le_bytes_len(l.input_size as nat, 8);
        lemma_le_bytes_len(l.output_size as nat, 8);
    }
}

/// An archive of several layers takes 29 bytes, 20 for each layer, and the
/// payload.
pub proof fn law_recursive_size(original_size: u64, layers: Seq<LayerSummary>, payload: Seq<u8>)
    ensures
        recursive_wire(original_size, layers, payload).len() == 29 + 20 * layers.len()
            + payload.len(),
{
    lemma_summaries_len(layers);
    lemma_le_bytes_len(original_size as nat, 8);
    lemma_le_bytes_len(layers.len(), 4);
    lemma_le_bytes_len(payload.len(), 8);
}

proof fn lemma_summary_stands(s: Seq<u8>, at: int, l: LayerSummary)
    requires
        stands_at(s, at, summary_wire(l)),
    ensures
        summary_at(s, at) == Ok::<(LayerSummary, int), Seq<char>>((l, at + 20)),
{
    lemma2_to64();
    lemma2_to64_rest();
    let w1 = le_bytes(l.block_size_bytes as nat, 4);
    let w2 = le_bytes(l.input_size as nat, 8);
    let w3 = le_bytes(l.output_size as nat, 8);
    lemma_le_bytes_len(l.block_size_bytes as nat, 4);
    lemma_le_bytes_len(l.input_size as nat, 8);
    lemma_stands_split(s, at, w1 + w2, w3);
    lemma_stands_split(s, at, w1, w2);
    lemma_number_stands(s, at, l.block_size_bytes as nat, 4);
    lemma_number_stands(s, at + 4, l.input_size as nat, 8);
    lemma_number_stands(s, at + 12, l.output_size as nat, 8);
}

proof fn lemma_summaries_prefix(layers: Seq<LayerSummary>, k: int)
    requires
        0 <= k <= layers.len(),
    ensures
        summaries_wire(layers.take(k)) == summaries_wire(layers).take(20 * k),
    decreases layers.len() - k,
{
    lemma_summaries_len(layers);
    lemma_summaries_len(layers.take(k));
    if k == layers.len() {
        assert(layers.take(k) =~= layers);
        assert(summaries_wire(layers).take(20 * k) =~= summaries_wire(layers));
    } else {
        let t = layers.take(k + 1);
        assert(t.drop_last() =~= layers.take(k));
        lemma_summaries_prefix(layers, k + 1);
        assert(summaries_wire(layers.take(k)) =~= summaries_wire(t).take(20 * k));
        assert(summaries_wire(t).take(20 * k) =~= summaries_wire(layers).take(20 * k));
    }
}

proof fn lemma_summaries_stand(s: Seq<u8>, at: int, layers: Seq<LayerSummary>, k: nat)
    requires
        k <= layers.len(),
        stands_at(s, at, summaries_wire(layers)),
    ensures
        summaries_at(
            s,
            at + 20 * k,
            (layers.len() - k) as nat,
            layers.take(k as int),
        ) == Ok::<(Seq<LayerSummary>, int), Seq<char>>((layers, at + 20 * layers.len())),
    decreases layers.len() - k,
{
    if k == layers.len() {
        assert(layers.take(k as int) =~= layers);
    } else {
        let t = layers.take(k as int);
        let u = layers.take(k as int + 1);
        let l = layers[k as int];
        assert(u.drop_last() =~= t);
        assert(t.push(l) =~= u);
        lemma_summaries_prefix(layers, k as int + 1);
        lemma_summaries_len(layers);
        lemma_summaries_len(t);
        lemma_summaries_len(u);
        let all = summaries_wire(layers);
        assert(s.subrange(at, at + summaries_wire(u).len()) =~= s.subrange(
            at,
            at + all.len(),
        ).take(20 * (k as int + 1)));
        lemma_stands_split(s, at, summaries_wire(t), summary_wire(l));
        lemma_summary_stands(s, at + 20 * k, l);
        lemma_summaries_stand(s, at, layers, k + 1);
    }
}

/// An archive of several layers at the front of the bytes is read, unless
/// bytes follow it.
proof fn lemma_recursive_stands(
    s: Seq<u8>,
    original_size: u64,
    layers: Seq<LayerSummary>,
    payload: Seq<u8>,
)
    requires
        layers.len() <= MAX_LAYERS,
        chain_fault(original_size, layers, payload.len()) is None,
        stands_at(s, 0, recursive_wire(original_size, layers, payload)),
    ensures
        parsed_recursive(s) == (if s.len() == recursive_wire(
            original_size,
            layers,
            payload,
        ).len() {
            Ok::<RecursiveView, Seq<char>>(RecursiveView { original_size, layers, payload })
        } else {
            Err("archive contains trailing bytes"@)
        }),
{
    lemma2_to64();
    lemma2_to64_rest();
    law_recursive_size(original_size, layers, payload);
    let w1 = multi_magic();
    let w2 = w1 + seq![BASE_VERSION];
    let w3 = w2 + le_bytes(original_size as nat, 8);
    let w4 = w3 + le_bytes(layers.len(), 4);
    let w5 = w4 + summaries_wire(layers);
    lemma_le_bytes_len(original_size as nat, 8);
    lemma_le_bytes_len(layers.len(), 4);
    lemma_summaries_len(layers);
    lemma_stands_split(s, 0, w5, counted(payload, 8));
    lemma_stands_split(s, 0, w4, summaries_wire(layers));
    lemma_stands_split(s, 0, w3, le_bytes(layers.len(), 4));
    lemma_stands_split(s, 0, w2, le_bytes(original_size as nat, 8));
    lemma_stands_split(s, 0, w1, seq![BASE_VERSION]);
    assert(s.take(8) =~= s.subrange(0, 8));
    lemma_byte_stands(s, 8, BASE_VERSION);
    lemma_number_stands(s, 9, original_size as nat, 8);
    lemma_number_stands(s, 17, layers.len(), 4);
    assert(layers.take(0) =~= Seq::empty());
    lemma_summaries_stand(s, 21, layers, 0);
    lemma_counted_stands(s, 21 + 20 * layers.len() as int, payload, 8);
}

/// Reading a written archive of several layers gives the archive back.
pub proof fn law_recursive_roundtrip(
    original_size: u64,
    layers: Seq<LayerSummary>,
    payload: Seq<u8>,
)
    requires
        layers.len() <= MAX_LAYERS,
        chain_fault(original_size, layers, payload.len()) is None,
        recursive_wire(original_size, layers, payload).len() <= usize::MAX,
    ensures
        parsed_recursive(recursive_wire(original_size, layers, payload)) == Ok::<
            RecursiveView,
            Seq<char>,
        >(RecursiveView { original_size, layers, payload }),
{
    let s = recursive_wire(original_size, layers, payload);
    assert(s.subrange(0, s.len() as int) =~= s);
    lemma_recursive_stands(s, original_size, layers, payload);
}

/// A summary that was read stands where it was read.
proof fn lemma_summary_read(s: Seq<u8>, at: int)
    requires
        summary_at(s, at) is Ok,
        0 <= at,
        s.len() <= usize::MAX,
    ensures
        summary_at(s, at)->Ok_0.1 == at + 20,
        stands_at(s, at, summary_wire(summary_at(s, at)->Ok_0.0)),
{
    lemma2_to64();
    lemma2_to64_rest();
    let l = summary_at(s, at)->Ok_0.0;
    lemma_number_read(s, at, 4);
    lemma_number_read(s, at + 4, 8);
    lemma_number_read(s, at + 12, 8);
    let w1 = le_bytes(l.block_size_bytes as nat, 4);
    let w2 = le_bytes(l.input_size as nat, 8);
    lemma_stands_join(s, at, w1, w2);
    lemma_stands_join(s, at, w1 + w2, le_bytes(l.output_size as nat, 8));
}

/// Summaries that were read stand where they were read.
proof fn lemma_summaries_read(s: Seq<u8>, at: int, count: nat, known: Seq<LayerSummary>)
    requires
        summaries_at(s, at + 20 * known.len(), count, known) is Ok,
        stands_at(s, at, summaries_wire(known)),
    ensures
        ({
            let (layers, next) = summaries_at(s, at + 20 * known.len(), count, known)->Ok_0;
            &&& layers.len() == known.len() + count
            &&& next == at + 20 * layers.len()
            &&& stands_at(s, at, summaries_wire(layers))
        }),
    decreases count,
{
    if count > 0 {
        let here = at + 20 * known.len();
        lemma_summary_read(s, here);
        lemma_summaries_len(known);
        let l = summary_at(s, here)->Ok_0.0;
        let more = known.push(l);
        assert(more.drop_last() =~= known);
        lemma_stands_join(s, at, summaries_wire(known), summary_wire(l));
        assert(summaries_wire(more) == summaries_wire(known) + summary_wire(l));
        lemma_summaries_read(s, at, (count - 1) as nat, more);
    }
}

/// Writing an archive of several layers that was read gives the same bytes.
pub proof fn law_read_recursive_is_written(s: Seq<u8>)
    requires
        s.len() <= usize::MAX,
    ensures
        parsed_recursive(s) matches Ok(a) ==> {
            &&& recursive_wire(a.original_size, a.layers, a.payload) == s
            &&& a.layers.len() <= MAX_LAYERS
            &&& chain_fault(a.original_size, a.layers, a.payload.len()) is None
        },
{
    if parsed_recursive(s) is Ok {
        lemma2_to64();
        lemma2_to64_rest();
        let a = parsed_recursive(s)->Ok_0;
        assert(s.subrange(0, 8) =~= s.take(8));
        lemma_byte_read(s, 8);
        lemma_number_read(s, 9, 8);
        lemma_number_read(s, 17, 4);
        let count = number_at(s, 17, 4)->Ok_0.0;
        let none = Seq::<LayerSummary>::empty();
        assert(s.subrange(21, 21) =~= summaries_wire(none));
        lemma_summaries_read(s, 21, count, none);
        lemma_summaries_len(a.layers);
        lemma_counted_read(s, 21 + 20 * count as int, 8);
        let w1 = multi_magic();
        let w2 = w1 + seq![BASE_VERSION];
        let w3 = w2 + le_bytes(a.original_size as nat, 8);
        let w4 = w3 + le_bytes(a.layers.len(), 4);
        let w5 = w4 + summaries_wire(a.layers);
        lemma_stands_join(s, 0, w1, seq![BASE_VERSION]);
        lemma_stands_join(s, 0, w2, le_bytes(a.original_size as nat, 8));
        lemma_stands_join(s, 0, w3, le_bytes(a.layers.len(), 4));
        lemma_stands_join(s, 0, w4, summaries_wire(a.layers));
        lemma_stands_join(s, 0, w5, counted(a.payload, 8));
        assert(s.subrange(0, s.len() as int) =~= s);
    }
}

/// The candidate that gives the shortest layer, the first among equals.
pub open spec fn best_size(input: Seq<u8>, sizes: Seq<usize>) -> Option<usize>
    decreases sizes.len(),
{
    if sizes.len() == 0 {
        None
    } else {
        match best_size(input, sizes.drop_last()) {
            None => Some(sizes.last()),
            Some(b) => if single_layer(input, sizes.last()).len() < single_layer(input, b).len() {
                Some(sizes.last())
            } else {
                Some(b)
            },
        }
    }
}

/// The best candidate is one of the candidates, and none gives a shorter
/// layer.
pub proof fn law_best_size(input: Seq<u8>, sizes: Seq<usize>)
    ensures
        sizes.len() > 0 ==> best_size(input, sizes) is Some,
        best_size(input, sizes) matches Some(b) ==> sizes.contains(b),
        best_size(input, sizes) matches Some(b) ==> forall|i: int|
            0 <= i < sizes.len() ==> single_layer(input, b).len() <= single_layer(
                input,
                #[trigger] sizes[i],
            ).len(),
    decreases sizes.len(),
{
    if sizes.len() > 0 {
        let front = sizes.drop_last();
        law_best_size(input, front);
        let b = best_size(input, sizes)->Some_0;
        if b != sizes.last() {
            let i = choose|i: int| 0 <= i < front.len() && front[i] == b;
            assert(sizes[i] == b);
        } else {
            assert(sizes[sizes.len() - 1] == b);
        }
        assert forall|i: int| 0 <= i < sizes.len() implies single_layer(input, b).len()
            <= single_layer(input, #[trigger] sizes[i]).len() by {
            if i < front.len() {
                assert(sizes[i] == front[i]);
            }
        }
    }
}

/// A layer and the block size it was made with.
#[derive(Clone, Debug, Eq, PartialEq)]
pub struct SingleLayerCandidate {
    pub block_size: usize,
    pub output: Vec<u8>,
}

/// Tries every candidate and keeps the shortest layer.
pub fn choose_best_single_layer(input: &[u8], candidates: &[usize]) -> (r: Result<
    SingleLayerCandidate,
    String,
>)
    requires
        input@.len() <= u32::MAX,
    ensures
        match r {
            Ok(c) => best_size(input@, candidates@) == Some(c.block_size) && c.output@
                == single_layer(input@, c.block_size),
            Err(e) => candidates@.len() == 0 && e@ == "no candidate block sizes were produced"@,
        },
{
    let n: usize = candidates.len();
    let mut best: Option<SingleLayerCandidate> = None;
    assert(candidates@.take(0) =~= Seq::empty());
    for i in 0..n
        invariant
            n == candidates@.len(),
            input@.len() <= u32::MAX,
            match best {
                Some(c) => best_size(input@, candidates@.take(i as int)) == Some(c.block_size)
                    && c.output@ == single_layer(input@, c.block_size),
                None => i == 0,
            },
    {
        assert(candidates@.take(i + 1).drop_last() =~= candidates@.take(i as int));
        let output = match compress_single_layer_bytes(input, candidates[i]) {
            Ok(o) => o,
            Err(e) => return Err(e),
        };
        let replace: bool = match &best {
            Some(c) => output.len() < c.output.len(),
            None => true,
        };
        if replace {
            best = Some(SingleLayerCandidate { block_size: candidates[i], output });
        }
    }
    assert(candidates@.take(n as int) =~= candidates@);
    match best {
        Some(c) => Ok(c),
        None => Err("no candidate block sizes were produced".to_string()),
    }
}

/// The block size for the next layer.
pub open spec fn next_size(current: Seq<u8>, hint: Option<usize>) -> usize {
    best_size(current, candidate_sizes(current, hint))->Some_0
}

/// The summary of the next layer.
pub open spec fn next_summary(current: Seq<u8>, hint: Option<usize>) -> LayerSummary {
    let size = next_size(current, hint);
    LayerSummary {
        block_size_bytes: size as u32,
        input_size: current.len() as u64,
        output_size: single_layer(current, size).len() as u64,
    }
}

/// One more layer makes both the data and the whole archive shorter.
pub open spec fn layer_pays(
    original_size: u64,
    layers: Seq<LayerSummary>,
    current: Seq<u8>,
    hint: Option<usize>,
) -> bool {
    let out = single_layer(current, next_size(current, hint));
    &&& out.len() < current.len()
    &&& recursive_wire(original_size, layers.push(next_summary(current, hint)), out).len()
        < recursive_wire(original_size, layers, current).len()
}

/// What is left after at most `rounds` more layers.
pub open spec fn layered(
    original_size: u64,
    layers: Seq<LayerSummary>,
    current: Seq<u8>,
    hint: Option<usize>,
    rounds: nat,
) -> (Seq<LayerSummary>, Seq<u8>)
    decreases rounds,
{
    if rounds == 0 || !layer_pays(original_size, layers, current, hint) {
        (layers, current)
    } else {
        layered(
            original_size,
            layers.push(next_summary(current, hint)),
            single_layer(current, next_size(current, hint)),
            hint,
            (rounds - 1) as nat,
        )
    }
}

/// The layers of a compressed input.
pub open spec fn layers_of(input: Seq<u8>, hint: Option<usize>) -> Seq<LayerSummary> {
    layered(input.len() as u64, Seq::empty(), input, hint, 16).0
}

/// The innermost payload of a compressed input.
pub open spec fn payload_of(input: Seq<u8>, hint: Option<usize>) -> Seq<u8> {
    layered(input.len() as u64, Seq::empty(), input, hint, 16).1
}

/// The compressed input.
pub open spec fn compressed(input: Seq<u8>, hint: Option<usize>) -> Seq<u8> {
    recursive_wire(input.len() as u64, layers_of(input, hint), payload_of(input, hint))
}

/// A finished archive, and what its layers are.
#[derive(Clone, Debug, Eq, PartialEq)]
pub struct CompressionOutcome {
    pub archive: Vec<u8>,
    pub layer_summaries: Vec<LayerSummary>,
}

/// Adds a layer if it pays.
fn next_layer(
    original_size: u64,
    layers: &Vec<LayerSummary>,
    current: &Vec<u8>,
    block_size_hint: Option<usize>,
    archive_len: usize,
) -> (r: Result<Option<(Vec<LayerSummary>, Vec<u8>, Vec<u8>)>, String>)
    requires
        current@.len() <= u32::MAX,
        archive_len == recursive_wire(original_size, layers@, current@).len(),
    ensures
        match r {
            Ok(Some((more, output, archive))) => {
                &&& layer_pays(original_size, layers@, current@, block_size_hint)
                &&& more@ == layers@.push(next_summary(current@, block_size_hint))
                &&& output@ == single_layer(current@, next_size(current@, block_size_hint))
                &&& archive@ == recursive_wire(original_size, more@, output@)
            },
            Ok(None) => !layer_pays(original_size, layers@, current@, block_size_hint),
            Err(_) => false,
        },
{
    let candidates = candidate_block_sizes(current.as_slice(), block_size_hint);
    proof {
        law_candidate_sizes(current@, block_size_hint);
    }
    let best = match choose_best_single_layer(current.as_slice(), candidates.as_slice()) {
        Ok(b) => b,
        Err(e) => return Err(e),
    };
    if best.output.len() >= current.len() {
        return Ok(None);
    }
    let mut more: Vec<LayerSummary> = vstd::slice::slice_to_vec(layers.as_slice());
    more.push(
        LayerSummary {
            block_size_bytes: best.block_size as u32,
            input_size: current.len() as u64,
            output_size: best.output.len() as u64,
        },
    );
    assert(more@ == layers@.push(next_summary(current@, block_size_hint)));
    let archive = serialize_recursive_archive(
        original_size,
        more.as_slice(),
        best.output.as_slice(),
    );
    if archive.len() >= archive_len {
        return Ok(None);
    }
    Ok(Some((more, best.output, archive)))
}

/// Compresses the input, layer by layer, for as long as the whole archive gets
/// shorter, and tells what the layers are.
pub fn compress_bytes_with_outcome(input: &[u8], block_size_hint: Option<usize>) -> (r: Result<
    CompressionOutcome,
    String,
>)
    requires
        input@.len() <= u32::MAX,
    ensures
        r matches Ok(o) && o.archive@ == compressed(input@, block_size_hint)
            && o.layer_summaries@ == layers_of(input@, block_size_hint),
{
    let original_size: u64 = input.len() as u64;
    let mut current: Vec<u8> = vstd::slice::slice_to_vec(input);
    let mut layers: Vec<LayerSummary> = Vec::new();
    let mut best_archive = serialize_recursive_archive(
        original_size,
        layers.as_slice(),
        current.as_slice(),
    );
    let mut rounds: usize = 0;
    while rounds < MAX_LAYERS
        invariant_except_break
            rounds <= MAX_LAYERS,
            current@.len() <= u32::MAX,
            best_archive@ == recursive_wire(original_size, layers@, current@),
            layered(original_size, Seq::empty(), input@, block_size_hint, 16) == layered(
                original_size,
                layers@,
                current@,
                block_size_hint,
                (MAX_LAYERS - rounds) as nat,
            ),
        ensures
            best_archive@ == recursive_wire(original_size, layers@, current@),
            layered(original_size, Seq::empty(), input@, block_size_hint, 16) == (
                layers@,
                current@,
            ),
        decreases MAX_LAYERS - rounds,
    {
        match next_layer(original_size, &layers, &current, block_size_hint, best_archive.len()) {
            Ok(Some((more, output, archive))) => {
                layers = more;
                current = output;
                best_archive = archive;
            },
            Ok(None) => {
                break;
            },
            Err(e) => return Err(e),
        }
        rounds = rounds + 1;
    }
    Ok(CompressionOutcome { archive: best_archive, layer_summaries: layers })
}

/// Compresses the input, layer by layer, for as long as the whole archive gets
/// shorter.
pub fn compress_bytes(input: &[u8], block_size_hint: Option<usize>) -> (r: Result<Vec<u8>, String>)
    requires
        input@.len() <= u32::MAX,
    ensures
        r matches Ok(archive) && archive@ == compressed(input@, block_size_hint),
{
    match compress_bytes_with_outcome(input, block_size_hint) {
        Ok(outcome) => Ok(outcome.archive),
        Err(e) => Err(e),
    }
}

/// The bytes open an archive of one layer.
pub open spec fn is_single(s: Seq<u8>) -> bool {
    s.len() >= 8 && s.take(8) == single_magic()
}

fn opens_single(input: &[u8]) -> (r: bool)
    ensures
        r == is_single(input@),
{
    let magic = magic_single();
    match expect_exact_magic(input, magic.as_slice()) {
        Ok(_) => true,
        Err(_) => false,
    }
}

/// What the layers, taken off from the last to the first, leave of a payload.
pub open spec fn unwound(layers: Seq<LayerSummary>, current: Seq<u8>) -> Result<
    Seq<u8>,
    Seq<char>,
>
    decreases layers.len(),
{
    if layers.len() == 0 {
        Ok(current)
    } else if current.len() != layers.last().output_size {
        Err("layer output size does not match recursive metadata"@)
    } else {
        match decoded_layer(current) {
            Err(e) => Err(e),
            Ok(decoded) => if decoded.len() != layers.last().input_size {
                Err("layer input size does not match recursive metadata"@)
            } else {
                unwound(layers.drop_last(), decoded)
            },
        }
    }
}

/// The bytes that an archive stands for.
pub open spec fn decompressed(s: Seq<u8>) -> Result<Seq<u8>, Seq<char>> {
    if is_single(s) {
        decoded_layer(s)
    } else {
        match parsed_recursive(s) {
            Err(e) => Err(e),
            Ok(a) => match unwound(a.layers, a.payload) {
                Err(e) => Err(e),
                Ok(out) => if out.len() != a.original_size {
                    Err("decoded size does not match recursive archive header"@)
                } else {
                    Ok(out)
                },
            },
        }
    }
}

/// Decompresses an archive.
pub fn decompress_bytes(input: &[u8]) -> (r: Result<Vec<u8>, String>)
    ensures
        outcome(r) == decompressed(input@),
{
    if opens_single(input) {
        return decompress_single_layer_bytes(input);
    }
    let archive = match parse_recursive_archive(input) {
        Ok(a) => a,
        Err(e) => return Err(e),
    };
    let RecursiveArchive { original_size, layer_summaries, final_payload } = archive;
    let ghost payload = final_payload@;
    let ghost layers = layer_summaries@;
    let mut current: Vec<u8> = final_payload;
    let mut k: usize = layer_summaries.len();
    assert(layers.take(k as int) =~= layers);
    while k > 0
        invariant
            !is_single(input@),
            parsed_recursive(input@) == Ok::<RecursiveView, Seq<char>>(
                RecursiveView { original_size, layers, payload },
            ),
            layers == layer_summaries@,
            k <= layers.len(),
            unwound(layers, payload) == unwound(layers.take(k as int), current@),
        decreases k,
    {
        let layer = layer_summaries[k - 1];
        assert(layers.take(k as int).last() == layer);
        assert(layers.take(k as int).drop_last() =~= layers.take(k - 1));
        if current.len() as u64 != layer.output_size {
            return Err("layer output size does not match recursive metadata".to_string());
        }
        let decoded = match decompress_single_layer_bytes(current.as_slice()) {
            Ok(d) => d,
            Err(e) => return Err(e),
        };
        if decoded.len() as u64 != layer.input_size {
            return Err("layer input size does not match recursive metadata".to_string());
        }
        current = decoded;
        k = k - 1;
    }
    assert(unwound(layers.take(0), current@) == Ok::<Seq<u8>, Seq<char>>(current@));
    if current.len() as u64 != original_size {
        return Err("decoded size does not match recursive archive header".to_string());
    }
    Ok(current)
}

/// What an archive says of its layers.
pub open spec fn inspected(s: Seq<u8>) -> Result<Seq<LayerSummary>, Seq<char>> {
    if is_single(s) {
        match parsed_archive(s) {
            Err(e) => Err(e),
            Ok(a) => Ok(
                seq![
                    LayerSummary {
                        block_size_bytes: a.header.block_size_bytes,
                        input_size: a.header.original_size,
                        output_size: s.len() as u64,
                    },
                ],
            ),
        }
    } else {
        match parsed_recursive(s) {
            Err(e) => Err(e),
            Ok(a) => Ok(a.layers),
        }
    }
}

/// Lists the layers of an archive.
pub fn inspect_archive(input: &[u8]) -> (r: Result<Vec<LayerSummary>, String>)
    ensures
        outcome(r) == inspected(input@),
{
    if opens_single(input) {
        match parse_archive(input) {
            Ok(a) => {
                let mut out: Vec<LayerSummary> = Vec::new();
                out.push(
                    LayerSummary {
                        block_size_bytes: a.header.block_size_bytes,
                        input_size: a.header.original_size,
                        output_size: input.len() as u64,
                    },
                );
                assert(inspected(input@)->Ok_0 =~= out@);
                Ok(out)
            },
            Err(e) => Err(e),
        }
    } else {
        match parse_recursive_archive(input) {
            Ok(a) => Ok(a.layer_summaries),
            Err(e) => Err(e),
        }
    }
}

/// The size of the next layer's blocks fits its field.
proof fn lemma_next_size(current: Seq<u8>, hint: Option<usize>)
    requires
        current.len() <= u32::MAX,
    ensures
        0 < next_size(current, hint) <= u32::MAX,
        ceil_div(current.len(), safe_size(next_size(current, hint)) as nat) <= u32::MAX,
{
    let sizes = candidate_sizes(current, hint);
    law_candidate_sizes(current, hint);
    law_best_size(current, sizes);
    let size = next_size(current, hint);
    let i = choose|i: int| 0 <= i < sizes.len() && sizes[i] == size;
    assert(sizes[i] == size);
    if current.len() > 0 {
        let q = (current.len() - 1) / size as int;
        vstd::arithmetic::div_mod::lemma_fundamental_div_mod(current.len() - 1, size as int);
        assert(q <= size * q) by (nonlinear_arith)
            requires
                size >= 1,
                q >= 0,
        ;
    }
}

/// Every layer that is added keeps the archive sound, and taking the layers
/// off again leads back to where they began.
proof fn lemma_layered(
    original_size: u64,
    layers: Seq<LayerSummary>,
    current: Seq<u8>,
    hint: Option<usize>,
    rounds: nat,
)
    requires
        current.len() <= u32::MAX,
        chain_fault(original_size, layers, current.len()) is None,
    ensures
        ({
            let (all, payload) = layered(original_size, layers, current, hint, rounds);
            &&& chain_fault(original_size, all, payload.len()) is None
            &&& all.len() <= layers.len() + rounds
            &&& unwound(all, payload) == unwound(layers, current)
            &&& 20 * all.len() + payload.len() <= 20 * layers.len() + current.len()
            &&& all != layers ==> 20 * all.len() + payload.len() < 20 * layers.len()
                + current.len()
        }),
    decreases rounds,
{
    if rounds > 0 && layer_pays(original_size, layers, current, hint) {
        let size = next_size(current, hint);
        let out = single_layer(current, size);
        let summary = next_summary(current, hint);
        let more = layers.push(summary);
        lemma_next_size(current, hint);
        law_single_layer_roundtrip(current, size);
        law_recursive_size(original_size, layers, current);
        law_recursive_size(original_size, more, out);
        assert(more.drop_last() =~= layers);
        assert(unwound(more, out) == unwound(layers, current));
        assert forall|i: int| 0 < i < more.len() implies more[i - 1].output_size == (
        #[trigger] more[i]).input_size by {
            if i < layers.len() {
                assert(more[i] == layers[i]);
            }
        }
        assert forall|i: int| 0 <= i < more.len() implies layer_shrinks(#[trigger] more[i]) by {
            if i < layers.len() {
                assert(more[i] == layers[i]);
            }
        }
        lemma_layered(original_size, more, out, hint, (rounds - 1) as nat);
    }
}

/// Decompressing a compressed input gives the input back.
pub proof fn law_compress_roundtrip(input: Seq<u8>, hint: Option<usize>)
    requires
        input.len() <= u32::MAX,
        compressed(input, hint).len() <= usize::MAX,
    ensures
        decompressed(compressed(input, hint)) == Ok::<Seq<u8>, Seq<char>>(input),
{
    let s = compressed(input, hint);
    let n = input.len() as u64;
    lemma_layered(n, Seq::empty(), input, hint, 16);
    law_recursive_roundtrip(n, layers_of(input, hint), payload_of(input, hint));
    lemma_opens_multi(n, layers_of(input, hint), payload_of(input, hint));
}

/// An archive of several layers is not taken for one of a single layer.
proof fn lemma_opens_multi(original_size: u64, layers: Seq<LayerSummary>, payload: Seq<u8>)
    ensures
        !is_single(recursive_wire(original_size, layers, payload)),
{
    let s = recursive_wire(original_size, layers, payload);
    assert(s[4] == multi_magic()[4]);
    if is_single(s) {
        assert(s.take(8)[4] == s[4]);
    }
}

/// Inspecting a compressed input lists the layers it was compressed in.
pub proof fn law_inspect_lists_layers(input: Seq<u8>, hint: Option<usize>)
    requires
        input.len() <= u32::MAX,
        compressed(input, hint).len() <= usize::MAX,
    ensures
        inspected(compressed(input, hint)) == Ok::<Seq<LayerSummary>, Seq<char>>(
            layers_of(input, hint),
        ),
{
    let n = input.len() as u64;
    lemma_layered(n, Seq::empty(), input, hint, 16);
    law_recursive_roundtrip(n, layers_of(input, hint), payload_of(input, hint));
    lemma_opens_multi(n, layers_of(input, hint), payload_of(input, hint));
}

/// A compressed input is at most 29 bytes longer than the input, and layers are
/// used only where the complete archive is shorter than it is without them. It
/// has at most sixteen layers, and every layer makes the data shorter: the
/// sizes of the layers form a chain from the input to the payload.
pub proof fn law_layers_shrink(input: Seq<u8>, hint: Option<usize>)
    requires
        input.len() <= u32::MAX,
    ensures
        compressed(input, hint).len() <= input.len() + 29,
        layers_of(input, hint).len() > 0 ==> compressed(input, hint).len() < recursive_wire(
            input.len() as u64,
            Seq::empty(),
            input,
        ).len() == input.len() + 29,
        layers_of(input, hint).len() <= MAX_LAYERS,
        forall|i: int|
            0 <= i < layers_of(input, hint).len() ==> layer_shrinks(
                #[trigger] layers_of(input, hint)[i],
            ),
        chain_fault(
            input.len() as u64,
            layers_of(input, hint),
            payload_of(input, hint).len(),
        ) is None,
{
    let n = input.len() as u64;
    lemma_layered(n, Seq::empty(), input, hint, 16);
    law_recursive_size(n, layers_of(input, hint), payload_of(input, hint));
    law_recursive_size(n, Seq::empty(), input);
}

/// Decompressing an input that was compressed as a single layer gives the
/// input back.
pub proof fn law_decompress_single_layer(input: Seq<u8>, size: usize)
    requires
        size <= u32::MAX,
        input.len() <= u64::MAX,
        ceil_div(input.len(), safe_size(size) as nat) <= u32::MAX,
        single_layer(input, size).len() <= usize::MAX,
    ensures
        decompressed(single_layer(input, size)) == Ok::<Seq<u8>, Seq<char>>(input),
{
    law_single_layer_roundtrip(input, size);
    let s = single_layer(input, size);
    assert(s.len() >= 8 && s.take(8) =~= single_magic());
}

/// An archive that can be decompressed, or only inspected, is refused with
/// bytes behind it.
pub proof fn law_tail_is_refused(s: Seq<u8>, tail: Seq<u8>)
    requires
        decompressed(s) is Ok || inspected(s) is Ok,
        tail.len() > 0,
        s.len() + tail.len() <= usize::MAX,
    ensures
        decompressed(s + tail) == Err::<Seq<u8>, Seq<char>>("archive contains trailing bytes"@),
        inspected(s + tail) == Err::<Seq<LayerSummary>, Seq<char>>(
            "archive contains trailing bytes"@,
        ),
{
    let all = s + tail;
    if s.len() >= 8 {
        assert(all.take(8) =~= s.take(8));
    }
    if is_single(s) {
        law_archive_has_no_tail(s, tail);
    } else {
        law_read_recursive_is_written(s);
        let a = parsed_recursive(s)->Ok_0;
        assert(all.subrange(0, s.len() as int) =~= s);
        lemma_recursive_stands(all, a.original_size, a.layers, a.payload);
    }
}

/// Bytes of any other base version are refused, so an archive does not survive
/// a change of its version.
pub proof fn law_other_version_is_refused(s: Seq<u8>)
    requires
        s.len() > 8,
        s[8] != BASE_VERSION,
    ensures
        decompressed(s) is Err,
        inspected(s) is Err,
{
}

/// A candidate below the best gives a longer layer.
proof fn lemma_best_is_first(input: Seq<u8>, sizes: Seq<usize>, k: int)
    requires
        forall|i: int, j: int| 0 <= i < j < sizes.len() ==> sizes[i] < sizes[j],
        0 <= k < sizes.len(),
        sizes[k] < best_size(input, sizes)->Some_0,
    ensures
        single_layer(input, best_size(input, sizes)->Some_0).len() < single_layer(
            input,
            sizes[k],
        ).len(),
    decreases sizes.len(),
{
    let front = sizes.drop_last();
    let b = best_size(input, sizes)->Some_0;
    law_best_size(input, sizes);
    law_best_size(input, front);
    if k < front.len() {
        assert(front[k] == sizes[k]);
        if b == sizes.last() {
            let f = best_size(input, front)->Some_0;
            if f == b {
                let i = choose|i: int| 0 <= i < front.len() && front[i] == f;
                assert(sizes[i] < sizes[sizes.len() - 1]);
            }
        } else {
            assert forall|i: int, j: int| 0 <= i < j < front.len() implies front[i] < front[j] by {
                assert(sizes[i] < sizes[j]);
            }
            lemma_best_is_first(input, front, k);
        }
    } else {
        let i = choose|i: int| 0 <= i < sizes.len() && sizes[i] == b;
        assert(sizes[i] == b);
        if i < k {
            assert(sizes[i] < sizes[k]);
        }
    }
}

/// `after` is the layer of `before` with the given block size: none of the
/// sizes that are tried gives a shorter layer, and none that is smaller gives
/// one as short.
pub open spec fn is_best_layer(
    before: Seq<u8>,
    after: Seq<u8>,
    size: usize,
    hint: Option<usize>,
) -> bool {
    &&& after == single_layer(before, size)
    &&& candidate_sizes(before, hint).contains(size)
    &&& forall|other: usize| #[trigger]
        candidate_sizes(before, hint).contains(other) ==> {
            &&& after.len() <= single_layer(before, other).len()
            &&& other < size ==> after.len() < single_layer(before, other).len()
        }
}

/// No size that is tried gives a layer that is more than 20 bytes shorter.
pub open spec fn no_layer_pays(data: Seq<u8>, hint: Option<usize>) -> bool {
    forall|size: usize| #[trigger]
        candidate_sizes(data, hint).contains(size) ==> single_layer(data, size).len() + 20
            >= data.len()
}

proof fn lemma_next_is_best(current: Seq<u8>, hint: Option<usize>)
    requires
        current.len() <= u32::MAX,
    ensures
        is_best_layer(
            current,
            single_layer(current, next_size(current, hint)),
            next_size(current, hint),
            hint,
        ),
{
    let sizes = candidate_sizes(current, hint);
    let size = next_size(current, hint);
    law_candidate_sizes(current, hint);
    law_best_size(current, sizes);
    assert forall|other: usize| #[trigger] sizes.contains(other) implies {
        &&& single_layer(current, size).len() <= single_layer(current, other).len()
        &&& other < size ==> single_layer(current, size).len() < single_layer(
            current,
            other,
        ).len()
    } by {
        let k = choose|k: int| 0 <= k < sizes.len() && sizes[k] == other;
        assert(sizes[k] == other);
        if other < size {
            assert forall|i: int, j: int| 0 <= i < j < sizes.len() implies sizes[i] < sizes[j] by {
                law_sizes_ascend(current, hint, i, j);
            }
            lemma_best_is_first(current, sizes, k);
        }
    }
}

/// The data lead from one end of the layers to the other: each is the best
/// layer of the one before and more than 20 bytes shorter.
pub open spec fn leads(
    data: Seq<Seq<u8>>,
    layers: Seq<LayerSummary>,
    hint: Option<usize>,
) -> bool {
    &&& data.len() == layers.len() + 1
    &&& forall|i: int|
        0 <= i < layers.len() ==> {
            let l = #[trigger] layers[i];
            &&& is_best_layer(data[i], data[i + 1], l.block_size_bytes as usize, hint)
            &&& l.input_size == data[i].len()
            &&& l.output_size == data[i + 1].len()
            &&& data[i + 1].len() + 20 < data[i].len()
        }
}

proof fn lemma_leads(
    original_size: u64,
    layers: Seq<LayerSummary>,
    current: Seq<u8>,
    hint: Option<usize>,
    rounds: nat,
    data: Seq<Seq<u8>>,
) -> (all: Seq<Seq<u8>>)
    requires
        current.len() <= u32::MAX,
        leads(data, layers, hint),
        data.last() == current,
    ensures
        ({
            let (more, payload) = layered(original_size, layers, current, hint, rounds);
            &&& leads(all, more, hint)
            &&& all[0] == data[0]
            &&& all.last() == payload
            &&& layers.len() <= more.len() <= layers.len() + rounds
            &&& more.len() < layers.len() + rounds ==> no_layer_pays(payload, hint)
            &&& more.len() == layers.len() && rounds > 0 ==> no_layer_pays(current, hint)
        }),
    decreases rounds,
{
    let size = next_size(current, hint);
    let out = single_layer(current, size);
    let summary = next_summary(current, hint);
    law_recursive_size(original_size, layers, current);
    law_recursive_size(original_size, layers.push(summary), out);
    lemma_next_is_best(current, hint);
    if rounds == 0 {
        data
    } else if !layer_pays(original_size, layers, current, hint) {
        assert(no_layer_pays(current, hint));
        data
    } else {
        lemma_next_size(current, hint);
        let more = layers.push(summary);
        let next = data.push(out);
        assert forall|i: int| 0 <= i < more.len() implies {
            let l = #[trigger] more[i];
            &&& is_best_layer(next[i], next[i + 1], l.block_size_bytes as usize, hint)
            &&& l.input_size == next[i].len()
            &&& l.output_size == next[i + 1].len()
            &&& next[i + 1].len() + 20 < next[i].len()
        } by {
            if i < layers.len() {
                assert(more[i] == layers[i]);
            }
        }
        lemma_leads(original_size, more, out, hint, (rounds - 1) as nat, next)
    }
}

/// An archive is made layer by layer: each layer is the shortest that any block
/// size that is tried gives, and saves more than the 20 bytes it takes to note
/// it. Layers are added until there are sixteen, or none would pay.
pub proof fn law_layers_are_best(input: Seq<u8>, hint: Option<usize>) -> (data: Seq<Seq<u8>>)
    requires
        input.len() <= u32::MAX,
    ensures
        leads(data, layers_of(input, hint), hint),
        data[0] == input,
        data.last() == payload_of(input, hint),
        layers_of(input, hint).len() <= 16,
        layers_of(input, hint).len() < 16 ==> no_layer_pays(payload_of(input, hint), hint),
        compressed(input, hint).len() == 29 + 20 * layers_of(input, hint).len() + payload_of(
            input,
            hint,
        ).len(),
{
    let n = input.len() as u64;
    law_recursive_size(n, layers_of(input, hint), payload_of(input, hint));
    lemma_leads(n, Seq::empty(), input, hint, 16, seq![input])
}

/// Where any block size that is tried makes a layer of the input that is more
/// than 20 bytes shorter, the archive has a layer, and it is no longer than it
/// would be with that layer alone. So an archive is never longer than the
/// shortest single layer and 49 bytes.
pub proof fn law_layer_is_used_where_it_pays(input: Seq<u8>, hint: Option<usize>, size: usize)
    requires
        input.len() <= u32::MAX,
        candidate_sizes(input, hint).contains(size),
    ensures
        single_layer(input, size).len() + 20 < input.len() ==> {
            &&& layers_of(input, hint).len() > 0
            &&& compressed(input, hint).len() < input.len() + 29
        },
        compressed(input, hint).len() <= single_layer(input, size).len() + 49,
{
    let n = input.len() as u64;
    let layers = layers_of(input, hint);
    let data = lemma_leads(n, Seq::empty(), input, hint, 16, seq![input]);
    law_layers_shrink(input, hint);
    law_recursive_size(n, layers, payload_of(input, hint));
    if layers.len() > 0 {
        let l = layers[0];
        assert(is_best_layer(data[0], data[1], l.block_size_bytes as usize, hint));
        lemma_data_shrinks(data, layers, hint, 1);
    }
}

/// Every further layer saves more than the 20 bytes it takes to note it.
proof fn lemma_data_shrinks(
    data: Seq<Seq<u8>>,
    layers: Seq<LayerSummary>,
    hint: Option<usize>,
    k: int,
)
    requires
        leads(data, layers, hint),
        0 <= k <= layers.len(),
    ensures
        data.last().len() + 20 * (layers.len() - k) <= data[k].len(),
    decreases layers.len() - k,
{
    if k < layers.len() {
        let l = layers[k];
        assert(data[k + 1].len() + 20 < data[k].len());
        lemma_data_shrinks(data, layers, hint, k + 1);
    }
}

/// An archive of several layers is read only where its numbers agree: the first
/// layer takes in as much as the archive stands for, each further one what the
/// one before gave out, the payload is what the last one gave out, and every
/// layer has a block size and makes its data shorter.
pub proof fn law_read_archive_is_consistent(s: Seq<u8>)
    requires
        s.len() <= usize::MAX,
    ensures
        parsed_recursive(s) matches Ok(a) ==> {
            let n = a.layers.len() as int;
            &&& n <= 16
            &&& n == 0 ==> a.payload.len() == a.original_size
            &&& n > 0 ==> a.layers[0].input_size == a.original_size
            &&& n > 0 ==> a.layers[n - 1].output_size == a.payload.len()
            &&& forall|i: int|
                0 <= i < n ==> 0 < (#[trigger] a.layers[i]).block_size_bytes
                    && a.layers[i].output_size < a.layers[i].input_size
            &&& forall|i: int|
                0 < i < n ==> (#[trigger] a.layers[i]).input_size == a.layers[i - 1].output_size
            &&& s.len() == 29 + 20 * n + a.payload.len()
        },
{
    if parsed_recursive(s) is Ok {
        law_read_recursive_is_written(s);
        let a = parsed_recursive(s)->Ok_0;
        law_recursive_size(a.original_size, a.layers, a.payload);
        let n = a.layers.len() as int;
        if n > 0 {
            assert(chained(a.layers));
            assert forall|i: int| 0 <= i < n implies 0 < (#[trigger] a.layers[i]).block_size_bytes
                && a.layers[i].output_size < a.layers[i].input_size by {
                assert(layer_shrinks(a.layers[i]));
            }
        }
    }
}

/// What an archive is decompressed to is as long as the archive says: as its own
/// size, and as what its first layer takes in.
pub proof fn law_decompressed_size(s: Seq<u8>)
    requires
        s.len() <= usize::MAX,
        decompressed(s) is Ok,
    ensures
        is_single(s) ==> (parsed_archive(s) matches Ok(a) && decompressed(s)->Ok_0.len()
            == a.header.original_size),
        !is_single(s) ==> (parsed_recursive(s) matches Ok(a) && decompressed(s)->Ok_0.len()
            == a.original_size && (a.layers.len() > 0 ==> decompressed(s)->Ok_0.len()
            == a.layers[0].input_size)),
{
    law_read_archive_is_consistent(s);
}

/// Inspecting an archive of one layer tells its block size, the length of the
/// input and its own length.
pub proof fn law_inspect_single_layer(input: Seq<u8>, size: usize)
    requires
        size <= u32::MAX,
        input.len() <= u64::MAX,
        ceil_div(input.len(), safe_size(size) as nat) <= u32::MAX,
        single_layer(input, size).len() <= usize::MAX,
    ensures
        inspected(single_layer(input, size)) matches Ok(l) && ({
            &&& l.len() == 1
            &&& l[0].block_size_bytes == if size == 0 {
                512
            } else {
                size as int
            }
            &&& l[0].input_size == input.len()
            &&& l[0].output_size == single_layer(input, size).len()
        }),
{
    let s = single_layer(input, size);
    assert(s.len() >= 8 && s.take(8) =~= single_magic());
    law_layer_header(input, size);
}

/// An archive that lacks bytes at its end is refused.
pub proof fn law_truncated_archive_is_refused(s: Seq<u8>, k: int)
    requires
        decompressed(s) is Ok,
        0 <= k < s.len() <= usize::MAX,
    ensures
        decompressed(s.take(k)) is Err,
        inspected(s.take(k)) is Err,
{
    let (front, tail) = (s.take(k), s.skip(k));
    assert(front + tail =~= s);
    if decompressed(front) is Ok || inspected(front) is Ok {
        law_tail_is_refused(front, tail);
    }
}

} // verus!
