//! Blocks over a small alphabet.
use vstd::prelude::*;
use vstd::arithmetic::power2::pow2;
use crate::bitstream::{
    bit_width_for_cardinality, ceil_div, index_bits, index_width, lemma_bit_len, lemma_index_bits,
    pack_indices, packed_bits, unpack_indices, unpacked_indices,
};
use crate::model::{
    produced, AlphabetBlock, AlphabetView, BlockAnalysis, BlockEncoding, BlockView,
};
use crate::text::outcome;

verus! {

/// The bytes below `n` that occur in a block, ascending.
pub open spec fn present_below(block: Seq<u8>, n: nat) -> Seq<u8>
    decreases n,
{
    if n == 0 {
        Seq::empty()
    } else {
        let front = present_below(block, (n - 1) as nat);
        if block.contains((n - 1) as u8) {
            front.push((n - 1) as u8)
        } else {
            front
        }
    }
}

/// The bytes that occur in a block, each once, ascending.
pub open spec fn alphabet_of(block: Seq<u8>) -> Seq<u8> {
    present_below(block, 256)
}

/// Every symbol is above the one before it.
pub open spec fn sorted_symbols(s: Seq<u8>) -> bool {
    forall|i: int, j: int| 0 <= i < j < s.len() ==> #[trigger] s[i] < #[trigger] s[j]
}

pub proof fn lemma_present_below(block: Seq<u8>, n: nat)
    requires
        n <= 256,
    ensures
        sorted_symbols(present_below(block, n)),
        present_below(block, n).len() <= n,
        forall|i: int|
            0 <= i < present_below(block, n).len() ==> #[trigger] present_below(block, n)[i] < n,
        forall|b: u8|
            #[trigger] present_below(block, n).contains(b) <==> b < n && block.contains(b),
    decreases n,
{
    if n > 0 {
        let m = (n - 1) as nat;
        let front = present_below(block, m);
        lemma_present_below(block, m);
        let all = present_below(block, n);
        assert forall|b: u8| #[trigger] all.contains(b) <==> b < n && block.contains(b) by {
            if block.contains(m as u8) {
                if b == m {
                    assert(all[front.len() as int] == b);
                }
                if front.contains(b) {
                    let k = choose|k: int| 0 <= k < front.len() && front[k] == b;
                    assert(all[k] == b);
                }
                if all.contains(b) && b != m {
                    let k = choose|k: int| 0 <= k < all.len() && all[k] == b;
                    assert(front[k] == b);
                    assert(front.contains(b));
                }
            } else {
                assert(front.contains(b) <==> b < m && block.contains(b));
            }
        }
    }
}

/// The alphabet of a block is sorted and holds exactly its bytes.
pub proof fn lemma_alphabet(block: Seq<u8>)
    ensures
        sorted_symbols(alphabet_of(block)),
        alphabet_of(block).len() <= 256,
        forall|b: u8| #[trigger] alphabet_of(block).contains(b) <==> block.contains(b),
        block.len() > 0 ==> alphabet_of(block).len() > 0,
{
    lemma_present_below(block, 256);
    if block.len() > 0 {
        assert(block.contains(block[0]));
        assert(alphabet_of(block).contains(block[0]));
    }
}

/// Finds the alphabet of a block.
pub fn analyze_block(block: &[u8]) -> (analysis: BlockAnalysis)
    ensures
        analysis@ == alphabet_of(block@),
{
    let mut seen: Vec<bool> = vec![false; 256];
    let n: usize = block.len();
    for i in 0..n
        invariant
            n == block@.len(),
            seen@.len() == 256,
            forall|b: int|
                0 <= b < 256 ==> (#[trigger] seen@[b] <==> block@.take(i as int).contains(b as u8)),
    {
        let ghost before = seen@;
        seen.set(block[i] as usize, true);
        proof {
            let old_part = block@.take(i as int);
            let new_part = block@.take(i + 1);
            assert forall|b: int| 0 <= b < 256 implies (#[trigger] seen@[b] <==> new_part.contains(
                b as u8,
            )) by {
                if b == block@[i as int] {
                    assert(new_part[i as int] == b as u8);
                } else {
                    if old_part.contains(b as u8) {
                        let k = choose|k: int| 0 <= k < old_part.len() && old_part[k] == b as u8;
                        assert(new_part[k] == b as u8);
                    }
                    if new_part.contains(b as u8) {
                        let k = choose|k: int| 0 <= k < new_part.len() && new_part[k] == b as u8;
                        assert(old_part[k] == b as u8);
                    }
                    assert(before[b] == seen@[b]);
                }
            }
        }
    }
    assert(block@.take(n as int) =~= block@);
    let mut unique: Vec<u8> = Vec::new();
    for b in 0..256usize
        invariant
            seen@.len() == 256,
            forall|b: int| 0 <= b < 256 ==> (#[trigger] seen@[b] <==> block@.contains(b as u8)),
            unique@ == present_below(block@, b as nat),
    {
        if seen[b] {
            unique.push(b as u8);
        }
    }
    BlockAnalysis { unique_sorted_bytes: unique }
}

/// The place of a symbol in an alphabet.
pub open spec fn place(alphabet: Seq<u8>, symbol: u8) -> int {
    choose|i: int| 0 <= i < alphabet.len() && alphabet[i] == symbol
}

/// Symbols replaced by their places.
pub open spec fn places(alphabet: Seq<u8>, symbols: Seq<u8>) -> Seq<u8> {
    symbols.map_values(|b: u8| place(alphabet, b) as u8)
}

/// Tabulates the places of the symbols.
pub(crate) fn place_table(alphabet: &Vec<u8>) -> (table: Vec<u8>)
    requires
        sorted_symbols(alphabet@),
        alphabet@.len() <= 256,
    ensures
        table@.len() == 256,
        forall|b: u8|
            alphabet@.contains(b) ==> #[trigger] table@[b as int] == place(alphabet@, b),
{
    let mut table: Vec<u8> = vec![0; 256];
    let n: usize = alphabet.len();
    for i in 0..n
        invariant
            n == alphabet@.len(),
            n <= 256,
            sorted_symbols(alphabet@),
            table@.len() == 256,
            forall|k: int| 0 <= k < i ==> table@[#[trigger] alphabet@[k] as int] == k,
    {
        let ghost before = table@;
        table.set(alphabet[i] as usize, i as u8);
        assert forall|k: int| 0 <= k < i + 1 implies table@[#[trigger] alphabet@[k] as int] == k by {
            if k < i {
                assert(alphabet@[k] < alphabet@[i as int]);
            }
        }
    }
    assert forall|b: u8| alphabet@.contains(b) implies #[trigger] table@[b as int] == place(
        alphabet@,
        b,
    ) by {
        let k = place(alphabet@, b);
        assert(alphabet@[k] == b);
    }
    table
}

/// A block encoded over its alphabet, unless its symbols need a full byte
/// each.
pub open spec fn alphabet_block(block: Seq<u8>) -> Option<AlphabetView> {
    let alphabet = alphabet_of(block);
    let width = index_width(alphabet.len());
    if alphabet.len() == 0 || width >= 8 {
        None
    } else {
        Some(
            AlphabetView {
                original_len: block.len() as u32,
                alphabet,
                bit_width: width as u8,
                breadcrumbs: packed_bits(index_bits(places(alphabet, block), width)),
            },
        )
    }
}

/// Encodes a block over its alphabet.
pub fn try_encode_alphabet_block(block: &[u8], analysis: &BlockAnalysis) -> (r: Result<
    Option<BlockEncoding>,
    String,
>)
    requires
        analysis@ == alphabet_of(block@),
        block@.len() <= u32::MAX,
    ensures
        produced(
            r,
            match alphabet_block(block@) {
                Some(b) => Some(BlockView::Alphabet(b)),
                None => None,
            },
        ),
{
    let alphabet = &analysis.unique_sorted_bytes;
    if alphabet.len() == 0 {
        return Ok(None);
    }
    let bit_width: u8 = bit_width_for_cardinality(alphabet.len());
    if bit_width >= 8 {
        return Ok(None);
    }
    proof {
        lemma_alphabet(block@);
    }
    let table = place_table(alphabet);
    let mut indices: Vec<u8> = Vec::new();
    let n: usize = block.len();
    for i in 0..n
        invariant
            n == block@.len(),
            alphabet@ == alphabet_of(block@),
            forall|b: u8| #[trigger] alphabet_of(block@).contains(b) <==> block@.contains(b),
            table@.len() == 256,
            forall|b: u8|
                alphabet@.contains(b) ==> #[trigger] table@[b as int] == place(alphabet@, b),
            indices@ =~= places(alphabet@, block@.take(i as int)),
    {
        let b: u8 = block[i];
        assert(block@.contains(b));
        assert(alphabet@.contains(b));
        indices.push(table[b as usize]);
        assert(block@.take(i + 1) =~= block@.take(i as int).push(b));
    }
    assert(block@.take(n as int) =~= block@);
    let breadcrumbs = pack_indices(indices.as_slice(), bit_width);
    let copy = clone_bytes(alphabet);
    Ok(
        Some(
            BlockEncoding::Alphabet(
                AlphabetBlock { original_len: n as u32, alphabet: copy, bit_width, breadcrumbs },
            ),
        ),
    )
}

/// Copies bytes.
pub(crate) fn clone_bytes(bytes: &Vec<u8>) -> (copy: Vec<u8>)
    ensures
        copy@ == bytes@,
{
    vstd::slice::slice_to_vec(bytes.as_slice())
}

/// Places looked up in an alphabet.
pub open spec fn looked_up(alphabet: Seq<u8>, indices: Seq<u8>) -> Seq<u8> {
    indices.map_values(|i: u8| alphabet[i as int])
}

/// Every index is a place of the alphabet.
pub open spec fn indices_fit(alphabet: Seq<u8>, indices: Seq<u8>) -> bool {
    forall|i: int| 0 <= i < indices.len() ==> (#[trigger] indices[i] as int) < alphabet.len()
}

/// What decoding an alphabet block gives.
pub open spec fn decoded_alphabet(b: AlphabetView) -> Result<Seq<u8>, Seq<char>> {
    match unpacked_indices(b.breadcrumbs, b.bit_width as int, b.original_len as int) {
        Err(e) => Err(e),
        Ok(indices) => if indices_fit(b.alphabet, indices) {
            Ok(looked_up(b.alphabet, indices))
        } else {
            Err("decoded alphabet index is out of range"@)
        },
    }
}

/// Decodes an alphabet block.
pub fn decode_alphabet_block(block: &AlphabetBlock) -> (r: Result<Vec<u8>, String>)
    ensures
        outcome(r) == decoded_alphabet(block@),
{
    let indices = match unpack_indices(
        block.breadcrumbs.as_slice(),
        block.bit_width,
        block.original_len as usize,
    ) {
        Ok(v) => v,
        Err(e) => return Err(e),
    };
    let mut out: Vec<u8> = Vec::new();
    let n: usize = indices.len();
    for i in 0..n
        invariant
            n == indices@.len(),
            unpacked_indices(
                block.breadcrumbs@,
                block.bit_width as int,
                block.original_len as int,
            ) == Ok::<Seq<u8>, Seq<char>>(indices@),
            forall|k: int| 0 <= k < i ==> (#[trigger] indices@[k] as int) < block.alphabet@.len(),
            out@ =~= looked_up(block.alphabet@, indices@.take(i as int)),
    {
        let index: usize = indices[i] as usize;
        if index >= block.alphabet.len() {
            assert(indices@[i as int] as int >= block.alphabet@.len());
            return Err("decoded alphabet index is out of range".to_string());
        }
        out.push(block.alphabet[index]);
        assert(indices@.take(i + 1) =~= indices@.take(i as int).push(indices@[i as int]));
    }
    assert(indices@.take(n as int) =~= indices@);
    Ok(out)
}

/// A place in an alphabet fits the width of its indices.
pub proof fn lemma_place(alphabet: Seq<u8>, symbol: u8)
    requires
        alphabet.contains(symbol),
        alphabet.len() <= 256,
    ensures
        0 <= place(alphabet, symbol) < alphabet.len(),
        alphabet[place(alphabet, symbol)] == symbol,
        place(alphabet, symbol) < pow2(index_width(alphabet.len())),
        index_width(alphabet.len()) <= 8,
{
    let n = alphabet.len();
    let i = place(alphabet, symbol);
    vstd::arithmetic::power2::lemma2_to64();
    if n > 1 {
        lemma_bit_len((n - 1) as nat, index_width(n));
        lemma_bit_len((n - 1) as nat, 8);
    }
}

/// Looking up the places of symbols gives the symbols back.
pub proof fn lemma_lookup(alphabet: Seq<u8>, symbols: Seq<u8>)
    requires
        alphabet.len() <= 256,
        forall|i: int| 0 <= i < symbols.len() ==> alphabet.contains(#[trigger] symbols[i]),
    ensures
        unpacked_indices(
            packed_bits(index_bits(places(alphabet, symbols), index_width(alphabet.len()))),
            index_width(alphabet.len()) as int,
            symbols.len() as int,
        ) == Ok::<Seq<u8>, Seq<char>>(places(alphabet, symbols)),
        indices_fit(alphabet, places(alphabet, symbols)),
        looked_up(alphabet, places(alphabet, symbols)) == symbols,
{
    let p = places(alphabet, symbols);
    let w = index_width(alphabet.len());
    assert forall|i: int| 0 <= i < p.len() implies (#[trigger] p[i] as nat) < pow2(w) && p[i]
        == place(alphabet, symbols[i]) && p[i] < alphabet.len() && alphabet[p[i] as int]
        == symbols[i] by {
        lemma_place(alphabet, symbols[i]);
    }
    if symbols.len() > 0 {
        lemma_place(alphabet, symbols[0]);
        crate::bitstream::law_pack_unpack(p, w);
    } else {
        assert(p =~= Seq::empty());
    }
    assert(looked_up(alphabet, p) =~= symbols);
}

/// Decoding an alphabet block gives back the block it was made from.
pub proof fn law_alphabet_roundtrip(block: Seq<u8>)
    requires
        alphabet_block(block) is Some,
        block.len() <= u32::MAX,
    ensures
        decoded_alphabet(alphabet_block(block)->Some_0) == Ok::<Seq<u8>, Seq<char>>(block),
{
    lemma_alphabet(block);
    let alphabet = alphabet_of(block);
    assert forall|i: int| 0 <= i < block.len() implies alphabet.contains(#[trigger] block[i]) by {
        assert(block.contains(block[i]));
    }
    lemma_lookup(alphabet, block);
}

/// Exactly the blocks of one to 128 different bytes have an alphabet form. It
/// lists these bytes ascending, and takes as few whole bits for every byte of
/// the block as tell them apart.
pub proof fn law_alphabet_form(block: Seq<u8>)
    requires
        block.len() <= u32::MAX,
    ensures
        alphabet_block(block) is Some <==> 1 <= alphabet_of(block).len() <= 128,
        alphabet_block(block) matches Some(b) ==> {
            &&& sorted_symbols(b.alphabet)
            &&& forall|x: u8| #[trigger] b.alphabet.contains(x) <==> block.contains(x)
            &&& b.alphabet.len() <= pow2(b.bit_width as nat)
            &&& b.bit_width > 0 ==> pow2((b.bit_width - 1) as nat) < b.alphabet.len()
            &&& b.original_len == block.len()
            &&& b.breadcrumbs.len() == ceil_div(block.len() * b.bit_width as nat, 8)
        },
{
    lemma_alphabet(block);
    let alphabet = alphabet_of(block);
    let n = alphabet.len();
    let w = index_width(n);
    vstd::arithmetic::power2::lemma2_to64();
    if n > 1 {
        lemma_bit_len((n - 1) as nat, 7);
        lemma_bit_len((n - 1) as nat, 8);
        lemma_bit_len((n - 1) as nat, w);
        if w > 0 {
            lemma_bit_len((n - 1) as nat, (w - 1) as nat);
        }
    }
    if alphabet_block(block) is Some {
        lemma_index_bits(places(alphabet, block), w);
        assert(block.len() * w == w * block.len()) by (nonlinear_arith);
    }
}

/// What an alphabet block is decoded to is as long as it says, and all its bytes
/// are in the alphabet.
pub proof fn law_decoded_symbols(b: AlphabetView)
    ensures
        decoded_alphabet(b) matches Ok(out) ==> out.len() == b.original_len && forall|i: int|
            0 <= i < out.len() ==> b.alphabet.contains(#[trigger] out[i]),
{
    if decoded_alphabet(b) is Ok {
        let indices = unpacked_indices(
            b.breadcrumbs,
            b.bit_width as int,
            b.original_len as int,
        )->Ok_0;
        let out = decoded_alphabet(b)->Ok_0;
        assert forall|i: int| 0 <= i < out.len() implies b.alphabet.contains(
            #[trigger] out[i],
        ) by {
            assert(indices[i] < b.alphabet.len());
            assert(out[i] == b.alphabet[indices[i] as int]);
        }
    }
}

} // verus!
