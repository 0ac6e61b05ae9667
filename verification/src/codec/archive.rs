//! Archives of one layer: a header and the blocks behind it.
use vstd::prelude::*;
use vstd::arithmetic::power2::{lemma2_to64, lemma2_to64_rest};
use crate::bitstream::ceil_div;
use crate::codec::block::{
    decode_block, decoded_block, encode_block, encoded, law_block_roundtrip,
    law_encoding_is_readable,
};
use crate::codec::cursor::{
    byte_at, lemma_byte_read, lemma_byte_stands, lemma_number_read, lemma_number_stands,
    lemma_stands_join, lemma_stands_split, number_at, read_u32, read_u64, read_u8, stands_at,
};
use crate::codec::parse::{block_at, parse_block};
use crate::codec::readable::{law_block_is_read_back, law_read_block_is_written, readable};
use crate::codec::spectral::same_bytes;
use crate::codec::wire::{append_serialized_block, block_size, block_wire, law_block_size};
use crate::kernel::topology::chunk;
use crate::model::{views, Archive, ArchiveHeader, ArchiveView, BlockEncoding, BlockView};
use crate::text::{decimal, numbered, outcome};
use crate::words::{le_bytes, lemma_le_bytes_len, push_u32, push_u64};

verus! {

/// The version of the format.
pub const BASE_VERSION: u8 = 1;

/// The block size used where none is given.
pub const DEFAULT_BLOCK_SIZE_BYTES: usize = 512;

/// The characters `PACKMVP1`, which open an archive of one layer.
pub open spec fn single_magic() -> Seq<u8> {
    seq![0x50u8, 0x41, 0x43, 0x4B, 0x4D, 0x56, 0x50, 0x31]
}

/// The characters `PACKMVP1`.
pub fn magic_single() -> (m: [u8; 8])
    ensures
        m@ == single_magic(),
{
    let m: [u8; 8] = [0x50, 0x41, 0x43, 0x4B, 0x4D, 0x56, 0x50, 0x31];
    assert(m@ =~= single_magic());
    m
}

/// A header as it is written.
pub open spec fn header_wire(h: ArchiveHeader) -> Seq<u8> {
    single_magic() + seq![h.base_version] + le_bytes(h.block_size_bytes as nat, 4) + le_bytes(
        h.original_size as nat,
        8,
    ) + le_bytes(h.block_count as nat, 4)
}

/// Blocks as they are written.
pub open spec fn blocks_wire(blocks: Seq<BlockView>) -> Seq<u8>
    decreases blocks.len(),
{
    if blocks.len() == 0 {
        Seq::empty()
    } else {
        blocks_wire(blocks.drop_last()) + block_wire(blocks.last())
    }
}

/// An archive as it is written.
pub open spec fn archive_wire(a: ArchiveView) -> Seq<u8> {
    header_wire(a.header) + blocks_wire(a.blocks)
}

/// Writes an archive.
pub fn serialize_single_layer_archive(archive: &Archive) -> (r: Result<Vec<u8>, String>)
    ensures
        r matches Ok(out) && out@ == archive_wire(archive@),
{
    let mut out: Vec<u8> = Vec::new();
    let magic = magic_single();
    out.extend_from_slice(magic.as_slice());
    out.push(archive.header.base_version);
    push_u32(&mut out, archive.header.block_size_bytes);
    push_u64(&mut out, archive.header.original_size);
    push_u32(&mut out, archive.header.block_count);
    let ghost all = views(archive.blocks@);
    let n: usize = archive.blocks.len();
    assert(out@ =~= header_wire(archive.header) + blocks_wire(all.take(0)));
    for i in 0..n
        invariant
            n == archive.blocks@.len(),
            all == views(archive.blocks@),
            out@ == header_wire(archive.header) + blocks_wire(all.take(i as int)),
    {
        append_serialized_block(&mut out, &archive.blocks[i]);
        assert(all.take(i + 1).drop_last() =~= all.take(i as int));
        assert(out@ =~= header_wire(archive.header) + blocks_wire(all.take(i + 1)));
    }
    assert(all.take(n as int) =~= all);
    Ok(out)
}

/// The place behind the opening characters.
pub open spec fn magic_at(s: Seq<u8>, magic: Seq<u8>) -> Result<int, Seq<char>> {
    if s.len() < magic.len() {
        Err("archive is too short for magic header"@)
    } else if s.take(magic.len() as int) != magic {
        Err("invalid archive magic"@)
    } else {
        Ok(magic.len() as int)
    }
}

pub(crate) fn expect_exact_magic(input: &[u8], magic: &[u8]) -> (r: Result<usize, String>)
    ensures
        match r {
            Ok(next) => magic_at(input@, magic@) == Ok::<int, Seq<char>>(next as int) && next
                <= input@.len(),
            Err(e) => magic_at(input@, magic@) == Err::<int, Seq<char>>(e@),
        },
{
    let n: usize = magic.len();
    if input.len() < n {
        return Err("archive is too short for magic header".to_string());
    }
    let head = vstd::slice::slice_subrange(input, 0, n);
    assert(head@ =~= input@.take(n as int));
    if !same_bytes(head, magic) {
        return Err("invalid archive magic".to_string());
    }
    Ok(n)
}

/// The `count` blocks at `at` behind those already known, and the place behind
/// them.
pub open spec fn blocks_at(s: Seq<u8>, at: int, count: nat, known: Seq<BlockView>) -> Result<
    (Seq<BlockView>, int),
    Seq<char>,
>
    decreases count,
{
    if count == 0 {
        Ok((known, at))
    } else {
        match block_at(s, at) {
            Err(e) => Err(e),
            Ok((b, next)) => blocks_at(s, next, (count - 1) as nat, known.push(b)),
        }
    }
}

/// The header of an archive, and the place behind it.
pub open spec fn header_at(s: Seq<u8>) -> Result<(ArchiveHeader, int), Seq<char>> {
    match magic_at(s, single_magic()) {
        Err(e) => Err(e),
        Ok(a1) => match byte_at(s, a1) {
            Err(e) => Err(e),
            Ok((base_version, a2)) => if base_version != BASE_VERSION {
                Err("unsupported base version: "@ + decimal(base_version as nat))
            } else {
                match number_at(s, a2, 4) {
                    Err(e) => Err(e),
                    Ok((block_size, a3)) => if block_size == 0 {
                        Err("block size must be greater than zero"@)
                    } else {
                        match number_at(s, a3, 8) {
                            Err(e) => Err(e),
                            Ok((original_size, a4)) => match number_at(s, a4, 4) {
                                Err(e) => Err(e),
                                Ok((block_count, a5)) => if block_count > s.len() {
                                    Err("block count exceeds archive size"@)
                                } else {
                                    Ok(
                                        (
                                            ArchiveHeader {
                                                base_version,
                                                block_size_bytes: block_size as u32,
                                                original_size: original_size as u64,
                                                block_count: block_count as u32,
                                            },
                                            a5,
                                        ),
                                    )
                                },
                            },
                        }
                    },
                }
            },
        },
    }
}

/// The archive that the bytes hold.
pub open spec fn parsed_archive(s: Seq<u8>) -> Result<ArchiveView, Seq<char>> {
    match header_at(s) {
        Err(e) => Err(e),
        Ok((header, at)) => match blocks_at(s, at, header.block_count as nat, Seq::empty()) {
            Err(e) => Err(e),
            Ok((blocks, end)) => if end != s.len() {
                Err("archive contains trailing bytes"@)
            } else {
                Ok(ArchiveView { header, blocks })
            },
        },
    }
}

fn parse_header(input: &[u8]) -> (r: Result<(ArchiveHeader, usize), String>)
    ensures
        match r {
            Ok((h, next)) => header_at(input@) == Ok::<(ArchiveHeader, int), Seq<char>>(
                (h, next as int),
            ) && next <= input@.len(),
            Err(e) => header_at(input@) == Err::<(ArchiveHeader, int), Seq<char>>(e@),
        },
{
    let magic = magic_single();
    let a1 = match expect_exact_magic(input, magic.as_slice()) {
        Ok(p) => p,
        Err(e) => return Err(e),
    };
    let (base_version, a2) = match read_u8(input, a1) {
        Ok(p) => p,
        Err(e) => return Err(e),
    };
    if base_version != BASE_VERSION {
        return Err(numbered("unsupported base version: ", base_version));
    }
    let (block_size_bytes, a3) = match read_u32(input, a2) {
        Ok(p) => p,
        Err(e) => return Err(e),
    };
    if block_size_bytes == 0 {
        return Err("block size must be greater than zero".to_string());
    }
    let (original_size, a4) = match read_u64(input, a3) {
        Ok(p) => p,
        Err(e) => return Err(e),
    };
    let (block_count, a5) = match read_u32(input, a4) {
        Ok(p) => p,
        Err(e) => return Err(e),
    };
    if block_count as u64 > input.len() as u64 {
        return Err("block count exceeds archive size".to_string());
    }
    Ok((ArchiveHeader { base_version, block_size_bytes, original_size, block_count }, a5))
}

/// Reads an archive.
pub fn parse_archive(input: &[u8]) -> (r: Result<Archive, String>)
    ensures
        outcome(r) == parsed_archive(input@),
{
    let (header, start) = match parse_header(input) {
        Ok(p) => p,
        Err(e) => return Err(e),
    };
    let mut blocks: Vec<BlockEncoding> = Vec::new();
    let mut at: usize = start;
    let count: u32 = header.block_count;
    assert(views(blocks@) =~= Seq::empty());
    for i in 0..count
        invariant
            count == header.block_count,
            at <= input@.len(),
            header_at(input@) == Ok::<(ArchiveHeader, int), Seq<char>>((header, start as int)),
            blocks_at(input@, start as int, count as nat, Seq::empty()) == blocks_at(
                input@,
                at as int,
                (count - i) as nat,
                views(blocks@),
            ),
    {
        match parse_block(input, at) {
            Ok((b, next)) => {
                let ghost before = views(blocks@);
                blocks.push(b);
                assert(views(blocks@) =~= before.push(b@));
                at = next;
            },
            Err(e) => return Err(e),
        }
    }
    if at != input.len() {
        return Err("archive contains trailing bytes".to_string());
    }
    Ok(Archive { header, blocks })
}

/// The archive can be read back.
pub open spec fn archive_readable(a: ArchiveView) -> bool {
    &&& a.header.base_version == BASE_VERSION
    &&& a.header.block_size_bytes > 0
    &&& a.header.block_count == a.blocks.len()
    &&& forall|i: int| 0 <= i < a.blocks.len() ==> readable(#[trigger] a.blocks[i])
    &&& archive_wire(a).len() <= usize::MAX
}

/// Where a block stands among the blocks.
proof fn lemma_blocks_prefix(blocks: Seq<BlockView>, k: int)
    requires
        0 <= k <= blocks.len(),
    ensures
        blocks_wire(blocks.take(k)).len() <= blocks_wire(blocks).len(),
        blocks_wire(blocks.take(k)) == blocks_wire(blocks).take(
            blocks_wire(blocks.take(k)).len() as int,
        ),
        9 * k <= blocks_wire(blocks.take(k)).len(),
    decreases blocks.len() - k, k,
{
    if k == blocks.len() {
        assert(blocks.take(k) =~= blocks);
        if k > 0 {
            law_block_size(blocks.last());
            lemma_blocks_prefix(blocks.drop_last(), k - 1);
            assert(blocks.drop_last().take(k - 1) =~= blocks.drop_last());
        }
    } else {
        let t = blocks.take(k + 1);
        assert(t.drop_last() =~= blocks.take(k));
        lemma_blocks_prefix(blocks, k + 1);
        let n = blocks_wire(blocks.take(k)).len() as int;
        assert(blocks_wire(blocks.take(k)) =~= blocks_wire(t).take(n));
        assert(blocks_wire(t).take(n) =~= blocks_wire(blocks).take(n));
        if k > 0 {
            lemma_blocks_len(blocks.take(k));
        }
    }
}

/// Every block takes at least nine bytes.
proof fn lemma_blocks_len(blocks: Seq<BlockView>)
    ensures
        9 * blocks.len() <= blocks_wire(blocks).len(),
    decreases blocks.len(),
{
    if blocks.len() > 0 {
        lemma_blocks_len(blocks.drop_last());
        law_block_size(blocks.last());
    }
}

proof fn lemma_blocks_stand(s: Seq<u8>, at: int, blocks: Seq<BlockView>, k: nat)
    requires
        k <= blocks.len(),
        stands_at(s, at, blocks_wire(blocks)),
        forall|i: int| 0 <= i < blocks.len() ==> readable(#[trigger] blocks[i]),
    ensures
        blocks_at(
            s,
            at + blocks_wire(blocks.take(k as int)).len(),
            (blocks.len() - k) as nat,
            blocks.take(k as int),
        ) == Ok::<(Seq<BlockView>, int), Seq<char>>((blocks, at + blocks_wire(blocks).len())),
    decreases blocks.len() - k,
{
    if k == blocks.len() {
        assert(blocks.take(k as int) =~= blocks);
    } else {
        let t = blocks.take(k as int);
        let u = blocks.take(k as int + 1);
        assert(u.drop_last() =~= t);
        assert(u.last() == blocks[k as int]);
        assert(t.push(blocks[k as int]) =~= u);
        lemma_blocks_prefix(blocks, k as int + 1);
        let all = blocks_wire(blocks);
        let front = blocks_wire(u);
        assert(s.subrange(at, at + front.len()) =~= s.subrange(at, at + all.len()).take(
            front.len() as int,
        ));
        lemma_stands_split(s, at, blocks_wire(t), block_wire(blocks[k as int]));
        law_block_is_read_back(s, at + blocks_wire(t).len(), blocks[k as int]);
        lemma_blocks_stand(s, at, blocks, k + 1);
    }
}

proof fn lemma_header_stands(s: Seq<u8>, h: ArchiveHeader)
    requires
        stands_at(s, 0, header_wire(h)),
        h.base_version == BASE_VERSION,
        h.block_size_bytes > 0,
        h.block_count <= s.len(),
    ensures
        header_at(s) == Ok::<(ArchiveHeader, int), Seq<char>>((h, 25)),
        header_wire(h).len() == 25,
{
    lemma2_to64();
    lemma2_to64_rest();
    let w1 = single_magic();
    let w2 = w1 + seq![h.base_version];
    let w3 = w2 + le_bytes(h.block_size_bytes as nat, 4);
    let w4 = w3 + le_bytes(h.original_size as nat, 8);
    lemma_le_bytes_len(h.block_size_bytes as nat, 4);
    lemma_le_bytes_len(h.original_size as nat, 8);
    lemma_stands_split(s, 0, w4, le_bytes(h.block_count as nat, 4));
    lemma_stands_split(s, 0, w3, le_bytes(h.original_size as nat, 8));
    lemma_stands_split(s, 0, w2, le_bytes(h.block_size_bytes as nat, 4));
    lemma_stands_split(s, 0, w1, seq![h.base_version]);
    assert(s.take(8) =~= s.subrange(0, 8));
    lemma_byte_stands(s, 8, h.base_version);
    lemma_number_stands(s, 9, h.block_size_bytes as nat, 4);
    lemma_number_stands(s, 13, h.original_size as nat, 8);
    lemma_number_stands(s, 21, h.block_count as nat, 4);
}

/// An archive at the front of the bytes is read, unless bytes follow it.
proof fn lemma_archive_stands(s: Seq<u8>, a: ArchiveView)
    requires
        archive_readable(a),
        stands_at(s, 0, archive_wire(a)),
    ensures
        parsed_archive(s) == (if s.len() == archive_wire(a).len() {
            Ok::<ArchiveView, Seq<char>>(a)
        } else {
            Err("archive contains trailing bytes"@)
        }),
{
    lemma_stands_split(s, 0, header_wire(a.header), blocks_wire(a.blocks));
    lemma_blocks_len(a.blocks);
    lemma_header_stands(s, a.header);
    assert(a.blocks.take(0) =~= Seq::empty());
    lemma_blocks_stand(s, 25, a.blocks, 0);
}

/// Reading a written archive gives the archive back.
pub proof fn law_archive_roundtrip(a: ArchiveView)
    requires
        archive_readable(a),
    ensures
        parsed_archive(archive_wire(a)) == Ok::<ArchiveView, Seq<char>>(a),
{
    let s = archive_wire(a);
    assert(s.subrange(0, s.len() as int) =~= s);
    lemma_archive_stands(s, a);
}

/// A header that was read stands at the front.
proof fn lemma_header_read(s: Seq<u8>)
    requires
        header_at(s) is Ok,
        s.len() <= usize::MAX,
    ensures
        ({
            let (h, next) = header_at(s)->Ok_0;
            &&& h.base_version == BASE_VERSION
            &&& h.block_size_bytes > 0
            &&& next == 25
            &&& header_wire(h).len() == 25
            &&& stands_at(s, 0, header_wire(h))
        }),
{
    lemma2_to64();
    lemma2_to64_rest();
    let h = header_at(s)->Ok_0.0;
    assert(s.subrange(0, 8) =~= s.take(8));
    lemma_byte_read(s, 8);
    lemma_number_read(s, 9, 4);
    lemma_number_read(s, 13, 8);
    lemma_number_read(s, 21, 4);
    let w1 = single_magic();
    let w2 = w1 + seq![h.base_version];
    let w3 = w2 + le_bytes(h.block_size_bytes as nat, 4);
    let w4 = w3 + le_bytes(h.original_size as nat, 8);
    lemma_stands_join(s, 0, w1, seq![h.base_version]);
    lemma_stands_join(s, 0, w2, le_bytes(h.block_size_bytes as nat, 4));
    lemma_stands_join(s, 0, w3, le_bytes(h.original_size as nat, 8));
    lemma_stands_join(s, 0, w4, le_bytes(h.block_count as nat, 4));
}

/// Blocks that were read stand where they were read.
proof fn lemma_blocks_read(s: Seq<u8>, at: int, count: nat, known: Seq<BlockView>)
    requires
        blocks_at(s, at + blocks_wire(known).len(), count, known) is Ok,
        stands_at(s, at, blocks_wire(known)),
        forall|i: int| 0 <= i < known.len() ==> readable(#[trigger] known[i]),
    ensures
        ({
            let (blocks, end) = blocks_at(s, at + blocks_wire(known).len(), count, known)->Ok_0;
            &&& blocks.len() == known.len() + count
            &&& end == at + blocks_wire(blocks).len()
            &&& stands_at(s, at, blocks_wire(blocks))
            &&& forall|i: int| 0 <= i < blocks.len() ==> readable(#[trigger] blocks[i])
        }),
    decreases count,
{
    if count > 0 {
        let here = at + blocks_wire(known).len();
        law_read_block_is_written(s, here);
        let b = block_at(s, here)->Ok_0.0;
        let more = known.push(b);
        assert(more.drop_last() =~= known);
        lemma_stands_join(s, at, blocks_wire(known), block_wire(b));
        assert(blocks_wire(more) == blocks_wire(known) + block_wire(b));
        assert forall|i: int| 0 <= i < more.len() implies readable(#[trigger] more[i]) by {
            if i < known.len() {
                assert(more[i] == known[i]);
            }
        }
        lemma_blocks_read(s, at, (count - 1) as nat, more);
    }
}

/// Writing an archive that was read gives the same bytes, and the archive has
/// as many blocks as its header says.
pub proof fn law_read_archive_is_written(s: Seq<u8>)
    requires
        s.len() <= usize::MAX,
    ensures
        parsed_archive(s) matches Ok(a) ==> {
            &&& archive_wire(a) == s
            &&& a.blocks.len() == a.header.block_count
            &&& archive_readable(a)
        },
{
    if parsed_archive(s) is Ok {
        let a = parsed_archive(s)->Ok_0;
        lemma_header_read(s);
        let none = Seq::<BlockView>::empty();
        assert(s.subrange(25, 25) =~= blocks_wire(none));
        lemma_blocks_read(s, 25, a.header.block_count as nat, none);
        lemma_stands_join(s, 0, header_wire(a.header), blocks_wire(a.blocks));
        assert(s.subrange(0, s.len() as int) =~= s);
    }
}

/// An archive of one layer with bytes behind it is refused.
pub proof fn law_archive_has_no_tail(s: Seq<u8>, tail: Seq<u8>)
    requires
        parsed_archive(s) is Ok,
        tail.len() > 0,
        s.len() + tail.len() <= usize::MAX,
    ensures
        parsed_archive(s + tail) == Err::<ArchiveView, Seq<char>>(
            "archive contains trailing bytes"@,
        ),
{
    law_read_archive_is_written(s);
    let all = s + tail;
    assert(all.subrange(0, s.len() as int) =~= s);
    lemma_archive_stands(all, parsed_archive(s)->Ok_0);
}

/// The block size that stands for a given one.
pub open spec fn safe_size(size: usize) -> usize {
    if size == 0 {
        DEFAULT_BLOCK_SIZE_BYTES
    } else {
        size
    }
}

/// The encodings of the first `n` pieces of the input.
pub open spec fn encoded_chunks(input: Seq<u8>, size: nat, n: nat) -> Seq<BlockView> {
    Seq::new(n, |k: int| encoded(chunk(input, size, k)))
}

/// The archive of the input cut into blocks.
pub open spec fn archive_of(input: Seq<u8>, size: usize) -> ArchiveView {
    let count = ceil_div(input.len(), safe_size(size) as nat);
    ArchiveView {
        header: ArchiveHeader {
            base_version: BASE_VERSION,
            block_size_bytes: safe_size(size) as u32,
            original_size: input.len() as u64,
            block_count: count as u32,
        },
        blocks: encoded_chunks(input, safe_size(size) as nat, count),
    }
}

/// The input as one layer.
pub open spec fn single_layer(input: Seq<u8>, size: usize) -> Seq<u8> {
    archive_wire(archive_of(input, size))
}

/// How many blocks there are once the input is used up.
proof fn lemma_chunk_count(len: nat, size: nat, k: nat)
    requires
        size > 0,
        k * size >= len,
        k > 0 ==> (k - 1) * size < len,
    ensures
        k == ceil_div(len, size),
{
    if len == 0 {
        assert(k == 0) by {
            if k > 0 {
                assert((k - 1) * size >= 0) by (nonlinear_arith)
                    requires
                        k > 0,
                        size > 0,
                ;
            }
        }
    } else {
        assert(k > 0) by {
            if k == 0 {
                assert(0 * size == 0);
            }
        }
        let d = size as int;
        let r = len - 1 - (k - 1) * d;
        assert(k * d == (k - 1) * d + d) by (nonlinear_arith);
        vstd::arithmetic::div_mod::lemma_fundamental_div_mod_converse(len - 1, d, k - 1, r);
    }
}

/// Compresses the input as one layer.
pub fn compress_single_layer_bytes(input: &[u8], block_size_bytes: usize) -> (r: Result<
    Vec<u8>,
    String,
>)
    requires
        input@.len() <= u32::MAX || block_size_bytes <= u32::MAX,
    ensures
        r matches Ok(out) && out@ == single_layer(input@, block_size_bytes),
{
    let size: usize = if block_size_bytes == 0 {
        DEFAULT_BLOCK_SIZE_BYTES
    } else {
        block_size_bytes
    };
    let n: usize = input.len();
    let mut blocks: Vec<BlockEncoding> = Vec::new();
    let mut at: usize = 0;
    let ghost mut k: nat = 0;
    assert(views(blocks@) =~= encoded_chunks(input@, size as nat, 0));
    assert(0 * size == 0);
    while at < n
        invariant
            n == input.len(),
            size == safe_size(block_size_bytes),
            size > 0,
            n <= u32::MAX || size <= u32::MAX,
            at <= n,
            at < n ==> at == k * size,
            at <= k * size,
            k * size >= n ==> at == n,
            k > 0 ==> (k - 1) * size < n,
            blocks@.len() == k,
            views(blocks@) == encoded_chunks(input@, size as nat, k),
        decreases n - at,
    {
        let end: usize = if n - at < size {
            n
        } else {
            at + size
        };
        proof {
            assert((k + 1) * size == k * size + size) by (nonlinear_arith);
        }
        let piece = vstd::slice::slice_subrange(input, at, end);
        assert(piece@ =~= chunk(input@, size as nat, k as int));
        match encode_block(piece) {
            Ok(b) => {
                let ghost before = views(blocks@);
                blocks.push(b);
                assert(views(blocks@) =~= before.push(b@));
                assert(views(blocks@) =~= encoded_chunks(input@, size as nat, k + 1));
            },
            Err(e) => return Err(e),
        }
        at = end;
        proof {
            k = k + 1;
        }
    }
    proof {
        lemma_chunk_count(input@.len(), size as nat, k);
    }
    let archive = Archive {
        header: ArchiveHeader {
            base_version: BASE_VERSION,
            block_size_bytes: size as u32,
            original_size: n as u64,
            block_count: blocks.len() as u32,
        },
        blocks,
    };
    serialize_single_layer_archive(&archive)
}

/// The bytes that a run of blocks stands for.
pub open spec fn decoded_blocks(blocks: Seq<BlockView>) -> Result<Seq<u8>, Seq<char>>
    decreases blocks.len(),
{
    if blocks.len() == 0 {
        Ok(Seq::empty())
    } else {
        match decoded_blocks(blocks.drop_last()) {
            Err(e) => Err(e),
            Ok(out) => match decoded_block(blocks.last()) {
                Err(e) => Err(e),
                Ok(more) => Ok(out + more),
            },
        }
    }
}

/// The bytes that one layer stands for.
pub open spec fn decoded_layer(s: Seq<u8>) -> Result<Seq<u8>, Seq<char>> {
    match parsed_archive(s) {
        Err(e) => Err(e),
        Ok(a) => match decoded_blocks(a.blocks) {
            Err(e) => Err(e),
            Ok(out) => if out.len() != a.header.original_size {
                Err("decoded size does not match archive header"@)
            } else {
                Ok(out)
            },
        },
    }
}

/// A fault among the first blocks is a fault of all of them.
proof fn lemma_decoded_prefix(blocks: Seq<BlockView>, k: int)
    requires
        0 <= k <= blocks.len(),
        decoded_blocks(blocks.take(k)) is Err,
    ensures
        decoded_blocks(blocks) == decoded_blocks(blocks.take(k)),
    decreases blocks.len() - k,
{
    if k == blocks.len() {
        assert(blocks.take(k) =~= blocks);
    } else {
        assert(blocks.take(k + 1).drop_last() =~= blocks.take(k));
        lemma_decoded_prefix(blocks, k + 1);
    }
}

/// Decompresses one layer.
pub fn decompress_single_layer_bytes(input: &[u8]) -> (r: Result<Vec<u8>, String>)
    ensures
        outcome(r) == decoded_layer(input@),
{
    let archive = match parse_archive(input) {
        Ok(a) => a,
        Err(e) => return Err(e),
    };
    let mut out: Vec<u8> = Vec::new();
    let n: usize = archive.blocks.len();
    let ghost all = views(archive.blocks@);
    assert(all.take(0) =~= Seq::empty());
    for i in 0..n
        invariant
            n == archive.blocks@.len(),
            all == views(archive.blocks@),
            parsed_archive(input@) == Ok::<ArchiveView, Seq<char>>(archive@),
            decoded_blocks(all.take(i as int)) == Ok::<Seq<u8>, Seq<char>>(out@),
    {
        assert(all.take(i + 1).drop_last() =~= all.take(i as int));
        assert(all.take(i + 1).last() == archive.blocks@[i as int]@);
        match decode_block(&archive.blocks[i]) {
            Ok(more) => {
                let ghost before = out@;
                out.extend_from_slice(more.as_slice());
                assert(out@ =~= before + more@);
            },
            Err(e) => {
                proof {
                    lemma_decoded_prefix(all, i + 1);
                }
                return Err(e);
            },
        }
    }
    assert(all.take(n as int) =~= all);
    if out.len() as u64 != archive.header.original_size {
        return Err("decoded size does not match archive header".to_string());
    }
    Ok(out)
}

/// The first pieces of the input, decoded, are the front of the input.
proof fn lemma_chunks_decode(input: Seq<u8>, size: nat, n: nat)
    requires
        0 < size <= u32::MAX,
        n > 0 ==> (n - 1) * size < input.len(),
    ensures
        decoded_blocks(encoded_chunks(input, size, n)) == Ok::<Seq<u8>, Seq<char>>(
            input.take(
                if n * size <= input.len() {
                    n * size as int
                } else {
                    input.len() as int
                },
            ),
        ),
    decreases n,
{
    if n == 0 {
        assert(0 * size == 0);
        assert(input.take(0) =~= Seq::empty());
    } else {
        let d = size as int;
        let last = chunk(input, size, n - 1);
        assert(n * d == (n - 1) * d + d) by (nonlinear_arith);
        if n > 1 {
            assert((n - 2) * d <= (n - 1) * d) by (nonlinear_arith)
                requires
                    d > 0,
            ;
        }
        assert(0 <= (n - 1) * d) by (nonlinear_arith)
            requires
                d > 0,
                n > 0,
        ;
        lemma_chunks_decode(input, size, (n - 1) as nat);
        assert(encoded_chunks(input, size, n).drop_last() =~= encoded_chunks(
            input,
            size,
            (n - 1) as nat,
        ));
        law_block_roundtrip(last);
        let end = if n * size <= input.len() {
            n * size as int
        } else {
            input.len() as int
        };
        assert(input.take((n - 1) * d) + last =~= input.take(end));
    }
}

/// Decompressing a compressed layer gives the input back, whatever the block
/// size.
pub proof fn law_single_layer_roundtrip(input: Seq<u8>, size: usize)
    requires
        size <= u32::MAX,
        input.len() <= u64::MAX,
        ceil_div(input.len(), safe_size(size) as nat) <= u32::MAX,
        single_layer(input, size).len() <= usize::MAX,
    ensures
        decoded_layer(single_layer(input, size)) == Ok::<Seq<u8>, Seq<char>>(input),
{
    let a = archive_of(input, size);
    let d = safe_size(size) as nat;
    let n = ceil_div(input.len(), d);
    assert forall|i: int| 0 <= i < a.blocks.len() implies readable(#[trigger] a.blocks[i]) by {
        lemma_chunk_len(input, d, i);
        law_encoding_is_readable(chunk(input, d, i));
    }
    law_archive_roundtrip(a);
    if input.len() > 0 {
        vstd::arithmetic::div_mod::lemma_fundamental_div_mod(input.len() - 1, d as int);
        let q = (input.len() - 1) / d as int;
        vstd::arithmetic::mul::lemma_mul_is_commutative(d as int, q);
        assert((q + 1) * d == q * d + d) by (nonlinear_arith);
    } else {
        assert(0 * d == 0);
    }
    lemma_chunks_decode(input, d, n);
    assert(input.take(input.len() as int) =~= input);
}

/// No piece is longer than asked for.
proof fn lemma_chunk_len(input: Seq<u8>, size: nat, k: int)
    requires
        size > 0,
        0 <= k < ceil_div(input.len(), size),
    ensures
        chunk(input, size, k).len() <= size,
{
    let d = size as int;
    let q = (input.len() - 1) / d;
    vstd::arithmetic::div_mod::lemma_fundamental_div_mod(input.len() - 1, d);
    vstd::arithmetic::mul::lemma_mul_is_commutative(d, q);
    assert(0 <= k * d <= q * d) by (nonlinear_arith)
        requires
            0 <= k <= q,
            d > 0,
    ;
}

/// A layer holds the block size, the length of the input and one block for each
/// piece of the input; each block is the shortest form of its piece. A block
/// size of zero stands for 512.
pub proof fn law_layer_holds_pieces(input: Seq<u8>, size: usize, k: int)
    requires
        size <= u32::MAX,
        input.len() <= u64::MAX,
        ceil_div(input.len(), safe_size(size) as nat) <= u32::MAX,
        single_layer(input, size).len() <= usize::MAX,
        0 <= k * safe_size(size) < input.len(),
        k >= 0,
    ensures
        parsed_archive(single_layer(input, size)) matches Ok(a) && ({
            let step = if size == 0 {
                512
            } else {
                size as int
            };
            let end = if (k + 1) * step < input.len() {
                (k + 1) * step
            } else {
                input.len() as int
            };
            &&& a.header.block_size_bytes == step
            &&& a.header.original_size == input.len()
            &&& a.header.block_count == a.blocks.len()
            &&& k < a.blocks.len()
            &&& a.blocks.len() == k + 1 <==> end == input.len()
            &&& a.blocks[k] == encoded(input.subrange(k * step, end))
            &&& decoded_block(a.blocks[k]) == Ok::<Seq<u8>, Seq<char>>(
                input.subrange(k * step, end),
            )
        }),
{
    let a = archive_of(input, size);
    let d = safe_size(size) as nat;
    assert forall|i: int| 0 <= i < a.blocks.len() implies readable(#[trigger] a.blocks[i]) by {
        lemma_chunk_len(input, d, i);
        law_encoding_is_readable(chunk(input, d, i));
    }
    law_archive_roundtrip(a);
    crate::kernel::topology::lemma_last_chunk(input.len(), d, k as nat);
    assert((k + 1) * d == k * d + d) by (nonlinear_arith);
    let piece = chunk(input, d, k);
    lemma_chunk_len(input, d, k);
    law_block_roundtrip(piece);
}

/// The header of a layer tells the block size and the length of the input.
pub proof fn law_layer_header(input: Seq<u8>, size: usize)
    requires
        size <= u32::MAX,
        input.len() <= u64::MAX,
        ceil_div(input.len(), safe_size(size) as nat) <= u32::MAX,
        single_layer(input, size).len() <= usize::MAX,
    ensures
        parsed_archive(single_layer(input, size)) matches Ok(a) && {
            &&& a.header.block_size_bytes == if size == 0 {
                512
            } else {
                size as int
            }
            &&& a.header.original_size == input.len()
            &&& a.header.base_version == 1
        },
{
    let a = archive_of(input, size);
    let d = safe_size(size) as nat;
    assert forall|i: int| 0 <= i < a.blocks.len() implies readable(#[trigger] a.blocks[i]) by {
        lemma_chunk_len(input, d, i);
        law_encoding_is_readable(chunk(input, d, i));
    }
    law_archive_roundtrip(a);
}

/// How long the first `n` pieces are when they are written.
pub open spec fn pieces_size(input: Seq<u8>, size: nat, n: nat) -> nat
    decreases n,
{
    if n == 0 {
        0
    } else {
        pieces_size(input, size, (n - 1) as nat) + block_size(
            encoded(chunk(input, size, n - 1)),
        )
    }
}

/// A layer takes 25 bytes and its blocks.
pub proof fn law_layer_size(input: Seq<u8>, size: usize)
    ensures
        single_layer(input, size).len() == 25 + pieces_size(
            input,
            safe_size(size) as nat,
            ceil_div(input.len(), safe_size(size) as nat),
        ),
{
    let a = archive_of(input, size);
    lemma_le_bytes_len(a.header.block_size_bytes as nat, 4);
    lemma_le_bytes_len(a.header.original_size as nat, 8);
    lemma_le_bytes_len(a.header.block_count as nat, 4);
    lemma_pieces_size(
        input,
        safe_size(size) as nat,
        ceil_div(input.len(), safe_size(size) as nat),
    );
}

proof fn lemma_pieces_size(input: Seq<u8>, size: nat, n: nat)
    ensures
        blocks_wire(encoded_chunks(input, size, n)).len() == pieces_size(input, size, n),
    decreases n,
{
    if n > 0 {
        lemma_pieces_size(input, size, (n - 1) as nat);
        let all = encoded_chunks(input, size, n);
        assert(all.drop_last() =~= encoded_chunks(input, size, (n - 1) as nat));
        law_block_size(all.last());
    }
}

} // verus!
