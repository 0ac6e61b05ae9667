//! Keys: the compact constants that the decoder expands.
use vstd::prelude::*;
use vstd::arithmetic::power2::{is_pow2, pow2};
use crate::bitstream::{bit_width_for_cardinality, index_width};
use crate::text::outcome;
use crate::words::{count_ones, is_power_of_two, le_bytes, le_value, ones, push_u64, read_le};

verus! {

pub const MAGIC_KEY_BYTES: usize = 8;

pub const MAX_SPECTRAL_PEAKS: usize = 3;

pub const MAX_SPECTRAL_BITS: usize = 8192;

pub const PACKED_CONSTANT_VERSION: u8 = 2;

pub const PACKED_CONSTANT_FIXED_BYTES: usize = 35;

/// How a packed constant scrambles words.
#[derive(Clone, Copy, Debug, Eq, PartialEq, Structural)]
pub enum ConstantFamily {
    PhaseXor,
    OddAffine,
    Hybrid,
}

/// How a packed constant reorders words.
#[derive(Clone, Copy, Debug, Eq, PartialEq, Structural)]
pub enum RoutingKind {
    Identity,
    RotateWords,
    ReverseWords,
    Butterfly,
}

/// The number a family is written as.
pub open spec fn family_code(family: ConstantFamily) -> u8 {
    match family {
        ConstantFamily::PhaseXor => 0,
        ConstantFamily::OddAffine => 1,
        ConstantFamily::Hybrid => 2,
    }
}

/// The number a routing is written as.
pub open spec fn routing_code(routing: RoutingKind) -> u8 {
    match routing {
        RoutingKind::Identity => 0,
        RoutingKind::RotateWords => 1,
        RoutingKind::ReverseWords => 2,
        RoutingKind::Butterfly => 3,
    }
}

impl ConstantFamily {
    pub fn code(self) -> (c: u8)
        ensures
            c == family_code(self),
    {
        match self {
            ConstantFamily::PhaseXor => 0,
            ConstantFamily::OddAffine => 1,
            ConstantFamily::Hybrid => 2,
        }
    }
}

impl RoutingKind {
    pub fn code(self) -> (c: u8)
        ensures
            c == routing_code(self),
    {
        match self {
            RoutingKind::Identity => 0,
            RoutingKind::RotateWords => 1,
            RoutingKind::ReverseWords => 2,
            RoutingKind::Butterfly => 3,
        }
    }
}

/// The fields of a packed constant.
#[derive(Clone, Copy, Debug, Eq, PartialEq)]
pub struct ConstantLayout {
    pub family: ConstantFamily,
    pub routing: RoutingKind,
    pub branch_rounds: u8,
    pub rotate_left: u8,
    pub rotate_right: u8,
    pub gf2_shift: u8,
    pub lane_rotate: u8,
    pub pivot_seed: u8,
    pub branch_stride: u8,
    pub branch_span: u8,
    pub phase_mask: u64,
    pub odd_multiplier: u64,
    pub dominant_walsh_mask: u64,
    pub dominant_walsh_bias: bool,
    pub affine_mask: Option<u64>,
}

/// What is wrong with a layout, if anything; the first fault counts.
pub open spec fn layout_fault(l: ConstantLayout) -> Option<Seq<char>> {
    if !(1 <= l.branch_rounds <= 16) {
        Some("branch round budget must be in 1..=16"@)
    } else if !(1 <= l.rotate_left < 64) {
        Some("left rotation must be in 1..63"@)
    } else if !(1 <= l.rotate_right < 64) {
        Some("right rotation must be in 1..63"@)
    } else if !(1 <= l.gf2_shift < 64) {
        Some("GF(2) shift must be in 1..63"@)
    } else if l.branch_stride == 0 {
        Some("branch stride must be non-zero"@)
    } else if l.branch_span == 0 {
        Some("branch span must be non-zero"@)
    } else if l.odd_multiplier % 2 == 0 {
        Some("odd multiplier must stay odd"@)
    } else if l.dominant_walsh_mask == 0 {
        Some("dominant Walsh mask must be non-zero"@)
    } else if l.branch_rounds > ones(l.dominant_walsh_mask as nat) {
        Some("branch rounds exceed the independent pivots in the Walsh mask"@)
    } else if l.family == ConstantFamily::PhaseXor && l.affine_mask is Some {
        Some("phase-xor family must not carry an affine mask"@)
    } else if l.family != ConstantFamily::PhaseXor && l.affine_mask is None {
        Some("affine families must carry an affine mask"@)
    } else {
        None
    }
}

/// The encoding of a layout.
pub open spec fn layout_bytes(l: ConstantLayout) -> Seq<u8> {
    seq![
        PACKED_CONSTANT_VERSION,
        (family_code(l.family) + 4 * routing_code(l.routing)) as u8,
        l.branch_rounds,
        l.rotate_left,
        l.rotate_right,
        l.gf2_shift,
        l.lane_rotate,
        l.pivot_seed,
        l.branch_stride,
        l.branch_span,
    ] + le_bytes(l.phase_mask as nat, 8) + le_bytes(l.odd_multiplier as nat, 8) + le_bytes(
        l.dominant_walsh_mask as nat,
        8,
    ) + seq![
        if l.dominant_walsh_bias {
            1u8
        } else {
            0u8
        },
    ] + (match l.affine_mask {
        Some(mask) => le_bytes(mask as nat, 8),
        None => Seq::empty(),
    })
}

/// What a layout packs to.
pub open spec fn packed_layout(l: ConstantLayout) -> Result<Seq<u8>, Seq<char>> {
    match layout_fault(l) {
        Some(e) => Err(e),
        None => Ok(layout_bytes(l)),
    }
}

/// The family a number stands for.
pub open spec fn family_of(code: u8) -> Option<ConstantFamily> {
    if code == 0 {
        Some(ConstantFamily::PhaseXor)
    } else if code == 1 {
        Some(ConstantFamily::OddAffine)
    } else if code == 2 {
        Some(ConstantFamily::Hybrid)
    } else {
        None
    }
}

/// The routing a number below four stands for.
pub open spec fn routing_of(code: u8) -> RoutingKind {
    if code == 0 {
        RoutingKind::Identity
    } else if code == 1 {
        RoutingKind::RotateWords
    } else if code == 2 {
        RoutingKind::ReverseWords
    } else {
        RoutingKind::Butterfly
    }
}

pub open spec fn word_at(bytes: Seq<u8>, at: int) -> u64 {
    le_value(bytes.subrange(at, at + 8)) as u64
}

/// The fields found in bytes of the right length.
pub open spec fn layout_fields(bytes: Seq<u8>, family: ConstantFamily) -> ConstantLayout {
    ConstantLayout {
        family,
        routing: routing_of((bytes[1] / 4) % 4),
        branch_rounds: bytes[2],
        rotate_left: bytes[3],
        rotate_right: bytes[4],
        gf2_shift: bytes[5],
        lane_rotate: bytes[6],
        pivot_seed: bytes[7],
        branch_stride: bytes[8],
        branch_span: bytes[9],
        phase_mask: word_at(bytes, 10),
        odd_multiplier: word_at(bytes, 18),
        dominant_walsh_mask: word_at(bytes, 26),
        dominant_walsh_bias: bytes[34] == 1,
        affine_mask: if family == ConstantFamily::PhaseXor {
            None
        } else {
            Some(word_at(bytes, 35))
        },
    }
}

/// The layout that bytes stand for.
pub open spec fn layout_of(bytes: Seq<u8>) -> Result<ConstantLayout, Seq<char>> {
    if bytes.len() < PACKED_CONSTANT_FIXED_BYTES {
        Err("packed constant is shorter than the fixed header"@)
    } else if bytes[0] != PACKED_CONSTANT_VERSION {
        Err("unsupported packed constant version"@)
    } else {
        match family_of(bytes[1] % 4) {
            None => Err("unsupported packed constant family"@),
            Some(family) => if family == ConstantFamily::PhaseXor && bytes.len()
                != PACKED_CONSTANT_FIXED_BYTES {
                Err("phase-xor packed constant must not contain an affine payload"@)
            } else if family != ConstantFamily::PhaseXor && bytes.len()
                != PACKED_CONSTANT_FIXED_BYTES + 8 {
                Err("affine packed constant must contain exactly one affine payload"@)
            } else if bytes[34] > 1 {
                Err("dominant Walsh bias must be encoded as zero or one"@)
            } else {
                match layout_fault(layout_fields(bytes, family)) {
                    Some(e) => Err(e),
                    None => Ok(layout_fields(bytes, family)),
                }
            },
        }
    }
}

fn validate_constant_layout(layout: &ConstantLayout) -> (r: Result<(), String>)
    ensures
        match r {
            Ok(_) => layout_fault(*layout) is None,
            Err(e) => layout_fault(*layout) == Some(e@),
        },
{
    if layout.branch_rounds < 1 || layout.branch_rounds > 16 {
        return Err("branch round budget must be in 1..=16".to_string());
    }
    if layout.rotate_left < 1 || layout.rotate_left >= 64 {
        return Err("left rotation must be in 1..63".to_string());
    }
    if layout.rotate_right < 1 || layout.rotate_right >= 64 {
        return Err("right rotation must be in 1..63".to_string());
    }
    if layout.gf2_shift < 1 || layout.gf2_shift >= 64 {
        return Err("GF(2) shift must be in 1..63".to_string());
    }
    if layout.branch_stride == 0 {
        return Err("branch stride must be non-zero".to_string());
    }
    if layout.branch_span == 0 {
        return Err("branch span must be non-zero".to_string());
    }
    if layout.odd_multiplier % 2 == 0 {
        return Err("odd multiplier must stay odd".to_string());
    }
    if layout.dominant_walsh_mask == 0 {
        return Err("dominant Walsh mask must be non-zero".to_string());
    }
    if layout.branch_rounds as u32 > count_ones(layout.dominant_walsh_mask) {
        return Err("branch rounds exceed the independent pivots in the Walsh mask".to_string());
    }
    if layout.family == ConstantFamily::PhaseXor {
        if layout.affine_mask.is_some() {
            return Err("phase-xor family must not carry an affine mask".to_string());
        }
    } else if layout.affine_mask.is_none() {
        return Err("affine families must carry an affine mask".to_string());
    }
    Ok(())
}

fn parse_constant_family(raw: u8) -> (r: Result<ConstantFamily, String>)
    ensures
        match r {
            Ok(f) => family_of(raw) == Some(f),
            Err(e) => family_of(raw) is None && e@ == "unsupported packed constant family"@,
        },
{
    match raw {
        0 => Ok(ConstantFamily::PhaseXor),
        1 => Ok(ConstantFamily::OddAffine),
        2 => Ok(ConstantFamily::Hybrid),
        _ => Err("unsupported packed constant family".to_string()),
    }
}

fn parse_routing_kind(raw: u8) -> (r: Result<RoutingKind, String>)
    ensures
        match r {
            Ok(k) => raw < 4 && k == routing_of(raw),
            Err(e) => raw >= 4 && e@ == "unsupported routing kind"@,
        },
{
    match raw {
        0 => Ok(RoutingKind::Identity),
        1 => Ok(RoutingKind::RotateWords),
        2 => Ok(RoutingKind::ReverseWords),
        3 => Ok(RoutingKind::Butterfly),
        _ => Err("unsupported routing kind".to_string()),
    }
}

/// A constant of variable length.
#[derive(Clone, Debug, Eq, PartialEq)]
pub struct PackedConstantK {
    bytes: Vec<u8>,
}

impl View for PackedConstantK {
    type V = Seq<u8>;

    closed spec fn view(&self) -> Seq<u8> {
        self.bytes@
    }
}

impl PackedConstantK {
    /// Packs a layout.
    pub fn from_layout(layout: &ConstantLayout) -> (r: Result<Self, String>)
        ensures
            outcome(r) == packed_layout(*layout),
    {
        match validate_constant_layout(layout) {
            Err(e) => return Err(e),
            Ok(_) => {},
        }
        let mut bytes: Vec<u8> = Vec::new();
        bytes.push(PACKED_CONSTANT_VERSION);
        bytes.push(layout.family.code() + 4 * layout.routing.code());
        bytes.push(layout.branch_rounds);
        bytes.push(layout.rotate_left);
        bytes.push(layout.rotate_right);
        bytes.push(layout.gf2_shift);
        bytes.push(layout.lane_rotate);
        bytes.push(layout.pivot_seed);
        bytes.push(layout.branch_stride);
        bytes.push(layout.branch_span);
        let ghost head = bytes@;
        push_u64(&mut bytes, layout.phase_mask);
        push_u64(&mut bytes, layout.odd_multiplier);
        push_u64(&mut bytes, layout.dominant_walsh_mask);
        let ghost before = bytes@;
        bytes.push(
            if layout.dominant_walsh_bias {
                1
            } else {
                0
            },
        );
        if let Some(mask) = layout.affine_mask {
            push_u64(&mut bytes, mask);
        }
        assert(head =~= layout_bytes(*layout).take(10));
        assert(bytes@ =~= layout_bytes(*layout));
        Ok(PackedConstantK { bytes })
    }

    /// Takes bytes that stand for a valid layout.
    pub fn parse(bytes: &[u8]) -> (r: Result<Self, String>)
        ensures
            match r {
                Ok(code) => code@ == bytes@ && layout_of(bytes@) is Ok,
                Err(e) => layout_of(bytes@) == Err::<ConstantLayout, Seq<char>>(e@),
            },
    {
        let code = PackedConstantK { bytes: vstd::slice::slice_to_vec(bytes) };
        match code.layout() {
            Ok(_) => Ok(code),
            Err(e) => Err(e),
        }
    }

    /// Reads the layout back.
    pub fn layout(&self) -> (r: Result<ConstantLayout, String>)
        ensures
            match r {
                Ok(l) => layout_of(self@) == Ok::<ConstantLayout, Seq<char>>(l),
                Err(e) => layout_of(self@) == Err::<ConstantLayout, Seq<char>>(e@),
            },
    {
        let bytes = self.bytes.as_slice();
        if bytes.len() < PACKED_CONSTANT_FIXED_BYTES {
            return Err("packed constant is shorter than the fixed header".to_string());
        }
        if bytes[0] != PACKED_CONSTANT_VERSION {
            return Err("unsupported packed constant version".to_string());
        }
        let family = match parse_constant_family(bytes[1] % 4) {
            Ok(f) => f,
            Err(e) => return Err(e),
        };
        let routing = match parse_routing_kind((bytes[1] / 4) % 4) {
            Ok(k) => k,
            Err(e) => return Err(e),
        };
        let affine_mask: Option<u64> = if family == ConstantFamily::PhaseXor {
            if bytes.len() != PACKED_CONSTANT_FIXED_BYTES {
                return Err(
                    "phase-xor packed constant must not contain an affine payload".to_string(),
                );
            }
            None
        } else {
            if bytes.len() != PACKED_CONSTANT_FIXED_BYTES + 8 {
                return Err(
                    "affine packed constant must contain exactly one affine payload".to_string(),
                );
            }
            Some(read_le(bytes, 35, 8))
        };
        if bytes[34] > 1 {
            return Err("dominant Walsh bias must be encoded as zero or one".to_string());
        }
        let layout = ConstantLayout {
            family,
            routing,
            branch_rounds: bytes[2],
            rotate_left: bytes[3],
            rotate_right: bytes[4],
            gf2_shift: bytes[5],
            lane_rotate: bytes[6],
            pivot_seed: bytes[7],
            branch_stride: bytes[8],
            branch_span: bytes[9],
            phase_mask: read_le(bytes, 10, 8),
            odd_multiplier: read_le(bytes, 18, 8),
            dominant_walsh_mask: read_le(bytes, 26, 8),
            dominant_walsh_bias: bytes[34] == 1,
            affine_mask,
        };
        match validate_constant_layout(&layout) {
            Ok(_) => Ok(layout),
            Err(e) => Err(e),
        }
    }

    pub fn as_bytes(&self) -> (bytes: &[u8])
        ensures
            bytes@ == self@,
    {
        self.bytes.as_slice()
    }

    pub fn into_bytes(self) -> (bytes: Vec<u8>)
        ensures
            bytes@ == self@,
    {
        self.bytes
    }

    /// The length of the constant in bits.
    pub fn encoded_bit_len(&self) -> (n: usize)
        requires
            8 * self@.len() <= usize::MAX,
        ensures
            n == 8 * self@.len(),
    {
        self.bytes.len() * 8
    }
}

/// A valid layout is read back from the bytes it packs to.
pub proof fn law_layout_roundtrip(l: ConstantLayout)
    requires
        layout_fault(l) is None,
    ensures
        packed_layout(l) is Ok,
        layout_of(packed_layout(l)->Ok_0) == Ok::<ConstantLayout, Seq<char>>(l),
{
    let bytes = layout_bytes(l);
    vstd::arithmetic::power2::lemma2_to64_rest();
    crate::words::lemma_le_roundtrip(l.phase_mask as nat, 8);
    crate::words::lemma_le_roundtrip(l.odd_multiplier as nat, 8);
    crate::words::lemma_le_roundtrip(l.dominant_walsh_mask as nat, 8);
    assert(bytes.subrange(10, 18) =~= le_bytes(l.phase_mask as nat, 8));
    assert(bytes.subrange(18, 26) =~= le_bytes(l.odd_multiplier as nat, 8));
    assert(bytes.subrange(26, 34) =~= le_bytes(l.dominant_walsh_mask as nat, 8));
    if let Some(mask) = l.affine_mask {
        crate::words::lemma_le_roundtrip(mask as nat, 8);
        assert(bytes.subrange(35, 43) =~= le_bytes(mask as nat, 8));
    }
    assert(layout_fields(bytes, l.family) == l);
}

/// One Walsh function of a spectral program.
#[derive(Clone, Copy, Debug, Eq, PartialEq)]
pub struct SpectralPeakCode {
    pub index: usize,
    pub positive: bool,
    pub amplitude: u8,
}

/// A block predicted from a few Walsh functions.
#[derive(Clone, Debug, Eq, PartialEq)]
pub struct SpectralProgram {
    pub bit_len: usize,
    pub peaks: Vec<SpectralPeakCode>,
    pub tie_bit: bool,
}

/// A spectral program as mathematical values.
#[verifier::ext_equal]
pub struct SpectralPlan {
    pub bit_len: nat,
    pub peaks: Seq<SpectralPeakCode>,
    pub tie_bit: bool,
}

impl View for SpectralProgram {
    type V = SpectralPlan;

    open spec fn view(&self) -> SpectralPlan {
        SpectralPlan { bit_len: self.bit_len as nat, peaks: self.peaks@, tie_bit: self.tie_bit }
    }
}

/// The first fault of the peaks, if any.
pub open spec fn peaks_fault(peaks: Seq<SpectralPeakCode>, bit_len: nat) -> Option<Seq<char>>
    decreases peaks.len(),
{
    if peaks.len() == 0 {
        None
    } else if peaks[0].index >= bit_len {
        Some("spectral peak index is outside the block"@)
    } else if peaks[0].amplitude == 0 || peaks[0].amplitude > 31 {
        Some("spectral peak amplitude must be in 1..=31"@)
    } else {
        peaks_fault(peaks.drop_first(), bit_len)
    }
}

/// What is wrong with a program, if anything; the first fault counts.
pub open spec fn program_fault(p: SpectralPlan) -> Option<Seq<char>> {
    if !is_pow2(p.bit_len as int) {
        Some("spectral bit_len must be a non-zero power of two"@)
    } else if !(2 <= p.bit_len <= MAX_SPECTRAL_BITS) {
        Some("spectral bit_len is outside the supported range"@)
    } else if p.peaks.len() == 0 || p.peaks.len() > MAX_SPECTRAL_PEAKS {
        Some("spectral program must contain between 1 and 3 peaks"@)
    } else {
        peaks_fault(p.peaks, p.bit_len)
    }
}

fn validate_spectral_program(program: &SpectralProgram) -> (r: Result<(), String>)
    ensures
        match r {
            Ok(_) => program_fault(program@) is None,
            Err(e) => program_fault(program@) == Some(e@),
        },
{
    if program.bit_len == 0 || !is_power_of_two(program.bit_len) {
        proof {
            reveal(is_pow2);
        }
        return Err("spectral bit_len must be a non-zero power of two".to_string());
    }
    if program.bit_len < 2 || program.bit_len > MAX_SPECTRAL_BITS {
        return Err("spectral bit_len is outside the supported range".to_string());
    }
    let n: usize = program.peaks.len();
    if n == 0 || n > MAX_SPECTRAL_PEAKS {
        return Err("spectral program must contain between 1 and 3 peaks".to_string());
    }
    let ghost bit_len = program.bit_len as nat;
    assert(program.peaks@.skip(0) =~= program.peaks@);
    for i in 0..n
        invariant
            n == program.peaks@.len(),
            bit_len == program.bit_len,
            peaks_fault(program.peaks@, bit_len) == peaks_fault(
                program.peaks@.skip(i as int),
                bit_len,
            ),
            program_fault(program@) == peaks_fault(program.peaks@, bit_len),
    {
        let peak = &program.peaks[i];
        assert(program.peaks@.skip(i as int).drop_first() =~= program.peaks@.skip(i + 1));
        if peak.index >= program.bit_len {
            return Err("spectral peak index is outside the block".to_string());
        }
        if peak.amplitude == 0 || peak.amplitude > 31 {
            return Err("spectral peak amplitude must be in 1..=31".to_string());
        }
    }
    Ok(())
}

/// The word that holds the given fields side by side.
pub open spec fn spectral_word(
    i: (u64, u64, u64),
    a: (u64, u64, u64),
    s: (u64, u64, u64),
    last: u64,
    log: u64,
    tie: u64,
) -> u64 {
    i.0 | (i.1 << 13) | (i.2 << 26) | (a.0 << 39) | (a.1 << 44) | (a.2 << 49) | (s.0 << 54) | (s.1
        << 55) | (s.2 << 56) | (last << 57) | (log << 59) | (tie << 63)
}

/// The index, amplitude and sign fields of peak `slot`, zero where it is
/// missing.
pub open spec fn peak_fields(peaks: Seq<SpectralPeakCode>, slot: int) -> (u64, u64, u64) {
    if slot < peaks.len() {
        (
            peaks[slot].index as u64,
            peaks[slot].amplitude as u64,
            if peaks[slot].positive {
                1
            } else {
                0
            },
        )
    } else {
        (0, 0, 0)
    }
}

/// The word a valid program packs to.
pub open spec fn program_word(p: SpectralPlan) -> u64 {
    let (f0, f1, f2) = (peak_fields(p.peaks, 0), peak_fields(p.peaks, 1), peak_fields(p.peaks, 2));
    spectral_word(
        (f0.0, f1.0, f2.0),
        (f0.1, f1.1, f2.1),
        (f0.2, f1.2, f2.2),
        (p.peaks.len() - 1) as u64,
        index_width(p.bit_len) as u64,
        if p.tie_bit {
            1
        } else {
            0
        },
    )
}

/// What a program packs to.
pub open spec fn packed_program(p: SpectralPlan) -> Result<u64, Seq<char>> {
    match program_fault(p) {
        Some(e) => Err(e),
        None => Ok(program_word(p)),
    }
}

/// The peak in `slot` of a spectral word.
pub open spec fn peak_at(raw: u64, slot: int) -> SpectralPeakCode {
    SpectralPeakCode {
        index: ((raw >> ((13 * slot) as u64)) & 0x1FFFu64) as usize,
        positive: (raw >> ((54 + slot) as u64)) & 1u64 == 1,
        amplitude: ((raw >> ((39 + 5 * slot) as u64)) & 0x1Fu64) as u8,
    }
}

/// The program a spectral word spells, valid or not.
pub open spec fn program_fields(raw: u64) -> SpectralPlan {
    SpectralPlan {
        bit_len: pow2(((raw >> 59) & 0xFu64) as nat),
        peaks: Seq::new(((raw >> 57) & 3u64) as nat + 1, |slot: int| peak_at(raw, slot)),
        tie_bit: raw >> 63 == 1,
    }
}

/// The program a word stands for.
pub open spec fn program_of(raw: u64) -> Result<SpectralPlan, Seq<char>> {
    let log = (raw >> 59) & 0xFu64;
    if !(1 <= log <= 13) {
        Err("spectral K contains an unsupported block size"@)
    } else if (raw >> 57) & 3u64 == 3 {
        Err("spectral K contains too many peaks"@)
    } else {
        match program_fault(program_fields(raw)) {
            Some(e) => Err(e),
            None => Ok(program_fields(raw)),
        }
    }
}

/// A key that describes a spectral program.
#[derive(Clone, Copy, Debug, Eq, Ord, PartialEq, PartialOrd)]
pub struct SpectralKey(u64);

impl View for SpectralKey {
    type V = u64;

    closed spec fn view(&self) -> u64 {
        self.0
    }
}

/// Reads a key of exactly eight bytes.
pub open spec fn key_word(bytes: Seq<u8>) -> Result<u64, Seq<char>> {
    if bytes.len() != 8 {
        Err("K must be exactly one 64-bit magic constant"@)
    } else {
        Ok(le_value(bytes) as u64)
    }
}

fn parse_u64(bytes: &[u8]) -> (r: Result<u64, String>)
    ensures
        outcome(r) == key_word(bytes@),
{
    if bytes.len() != MAGIC_KEY_BYTES {
        return Err("K must be exactly one 64-bit magic constant".to_string());
    }
    assert(bytes@.subrange(0, 8) =~= bytes@);
    Ok(read_le(bytes, 0, 8))
}

fn word_bytes(raw: u64) -> (bytes: [u8; 8])
    ensures
        bytes@ == le_bytes(raw as nat, 8),
{
    let mut v: Vec<u8> = Vec::new();
    push_u64(&mut v, raw);
    proof {
        crate::words::lemma_le_bytes_len(raw as nat, 8);
    }
    let bytes: [u8; 8] = [v[0], v[1], v[2], v[3], v[4], v[5], v[6], v[7]];
    assert(bytes@ =~= le_bytes(raw as nat, 8));
    bytes
}

fn slot_fields(peaks: &Vec<SpectralPeakCode>, slot: usize) -> (f: (u64, u64, u64))
    ensures
        f == peak_fields(peaks@, slot as int),
{
    if slot < peaks.len() {
        let peak = &peaks[slot];
        (
            peak.index as u64,
            peak.amplitude as u64,
            if peak.positive {
                1
            } else {
                0
            },
        )
    } else {
        (0, 0, 0)
    }
}

impl SpectralKey {
    /// Packs a program.
    pub fn from_program(program: &SpectralProgram) -> (r: Result<Self, String>)
        ensures
            outcome(r) == packed_program(program@),
    {
        match validate_spectral_program(program) {
            Err(e) => return Err(e),
            Ok(_) => {},
        }
        let f0 = slot_fields(&program.peaks, 0);
        let f1 = slot_fields(&program.peaks, 1);
        let f2 = slot_fields(&program.peaks, 2);
        let last: u64 = (program.peaks.len() - 1) as u64;
        let log: u64 = bit_width_for_cardinality(program.bit_len) as u64;
        let tie: u64 = if program.tie_bit {
            1
        } else {
            0
        };
        let raw: u64 = f0.0 | (f1.0 << 13) | (f2.0 << 26) | (f0.1 << 39) | (f1.1 << 44) | (f2.1
            << 49) | (f0.2 << 54) | (f1.2 << 55) | (f2.2 << 56) | (last << 57) | (log << 59) | (tie
            << 63);
        Ok(SpectralKey(raw))
    }

    /// Reads the program back.
    pub fn program(self) -> (r: Result<SpectralProgram, String>)
        ensures
            outcome(r) == program_of(self@),
    {
        let raw: u64 = self.0;
        let log: u64 = (raw >> 59) & 0xF;
        if log < 1 || log > 13 {
            return Err("spectral K contains an unsupported block size".to_string());
        }
        let last: u64 = (raw >> 57) & 3;
        assert((raw >> 57) & 3 <= 3) by (bit_vector);
        if last == 3 {
            return Err("spectral K contains too many peaks".to_string());
        }
        let count: u64 = last + 1;
        let mut peaks: Vec<SpectralPeakCode> = Vec::new();
        for slot in 0..count
            invariant
                count <= 3,
                peaks@ =~= Seq::new(slot as nat, |s: int| peak_at(raw, s)),
        {
            peaks.push(
                SpectralPeakCode {
                    index: ((raw >> (13 * slot)) & 0x1FFF) as usize,
                    positive: (raw >> (54 + slot)) & 1 == 1,
                    amplitude: ((raw >> (39 + 5 * slot)) & 0x1F) as u8,
                },
            );
        }
        proof {
            vstd::arithmetic::power2::lemma2_to64();
            vstd::arithmetic::power2::lemma_pow2_strictly_increases(log as nat, 14);
            vstd::bits::lemma_usize_shl_is_mul(1, log as usize);
        }
        let program = SpectralProgram { bit_len: 1usize << log, peaks, tie_bit: raw >> 63 == 1 };
        assert(program@ =~= program_fields(raw));
        match validate_spectral_program(&program) {
            Ok(_) => Ok(program),
            Err(e) => Err(e),
        }
    }

    pub fn serialize(self) -> (bytes: [u8; 8])
        ensures
            bytes@ == le_bytes(self@ as nat, 8),
    {
        word_bytes(self.0)
    }

    pub fn parse(bytes: &[u8]) -> (r: Result<Self, String>)
        ensures
            outcome(r) == key_word(bytes@),
    {
        match parse_u64(bytes) {
            Ok(raw) => Ok(SpectralKey(raw)),
            Err(e) => Err(e),
        }
    }

    pub fn raw(self) -> (raw: u64)
        ensures
            raw == self@,
    {
        self.0
    }

    pub fn encoded_bit_len(self) -> (n: usize)
        ensures
            n == 64,
    {
        64
    }
}

/// The word holds every field where it was put.
proof fn lemma_spectral_word(
    i: (u64, u64, u64),
    a: (u64, u64, u64),
    s: (u64, u64, u64),
    last: u64,
    log: u64,
    tie: u64,
)
    requires
        i.0 < 8192 && i.1 < 8192 && i.2 < 8192,
        a.0 < 32 && a.1 < 32 && a.2 < 32,
        s.0 < 2 && s.1 < 2 && s.2 < 2,
        last < 4 && log < 16 && tie < 2,
    ensures
        ({
            let w = spectral_word(i, a, s, last, log, tie);
            &&& (w >> 0) & 0x1FFFu64 == i.0
            &&& (w >> 13) & 0x1FFFu64 == i.1
            &&& (w >> 26) & 0x1FFFu64 == i.2
            &&& (w >> 39) & 0x1Fu64 == a.0
            &&& (w >> 44) & 0x1Fu64 == a.1
            &&& (w >> 49) & 0x1Fu64 == a.2
            &&& (w >> 54) & 1u64 == s.0
            &&& (w >> 55) & 1u64 == s.1
            &&& (w >> 56) & 1u64 == s.2
            &&& (w >> 57) & 3u64 == last
            &&& (w >> 59) & 0xFu64 == log
            &&& w >> 63 == tie
        }),
{
    let (i0, i1, i2) = i;
    let (a0, a1, a2) = a;
    let (s0, s1, s2) = s;
    let w = spectral_word(i, a, s, last, log, tie);
    assert((w >> 0) & 0x1FFFu64 == i0 && (w >> 13) & 0x1FFFu64 == i1 && (w >> 26) & 0x1FFFu64 == i2
        && (w >> 39) & 0x1Fu64 == a0 && (w >> 44) & 0x1Fu64 == a1 && (w >> 49) & 0x1Fu64 == a2 && (w
        >> 54) & 1u64 == s0 && (w >> 55) & 1u64 == s1 && (w >> 56) & 1u64 == s2 && (w >> 57) & 3u64
        == last && (w >> 59) & 0xFu64 == log && w >> 63 == tie) by (bit_vector)
        requires
            i0 < 8192 && i1 < 8192 && i2 < 8192,
            a0 < 32 && a1 < 32 && a2 < 32,
            s0 < 2 && s1 < 2 && s2 < 2,
            last < 4 && log < 16 && tie < 2,
            w == i0 | (i1 << 13) | (i2 << 26) | (a0 << 39) | (a1 << 44) | (a2 << 49) | (s0 << 54)
                | (s1 << 55) | (s2 << 56) | (last << 57) | (log << 59) | (tie << 63),
    ;
}

/// A power of two is two to the width of its indices.
pub proof fn lemma_pow2_width(n: nat)
    requires
        is_pow2(n as int),
    ensures
        n == pow2(index_width(n)),
    decreases n,
{
    reveal(is_pow2);
    vstd::arithmetic::power2::lemma2_to64();
    if n > 1 {
        let h = (n / 2) as nat;
        lemma_pow2_width(h);
        assert((n - 1) / 2 == h - 1);
        vstd::arithmetic::power2::lemma_pow2_unfold(index_width(n));
        reveal_with_fuel(crate::bitstream::bit_len, 2);
    }
}

/// Without a fault, every peak is inside the block and has an amplitude.
pub proof fn lemma_sound_peaks(peaks: Seq<SpectralPeakCode>, bit_len: nat)
    requires
        peaks_fault(peaks, bit_len) is None,
    ensures
        forall|i: int|
            0 <= i < peaks.len() ==> (#[trigger] peaks[i]).index < bit_len && 1
                <= peaks[i].amplitude <= 31,
    decreases peaks.len(),
{
    if peaks.len() > 0 {
        lemma_sound_peaks(peaks.drop_first(), bit_len);
        assert forall|i: int| 0 <= i < peaks.len() implies (#[trigger] peaks[i]).index < bit_len && 1
            <= peaks[i].amplitude <= 31 by {
            if i > 0 {
                assert(peaks[i] == peaks.drop_first()[i - 1]);
            }
        }
    }
}

/// Conversely, peaks inside the block with an amplitude have no fault.
pub proof fn lemma_faultless_peaks(peaks: Seq<SpectralPeakCode>, bit_len: nat)
    requires
        forall|i: int|
            0 <= i < peaks.len() ==> (#[trigger] peaks[i]).index < bit_len && 1
                <= peaks[i].amplitude <= 31,
    ensures
        peaks_fault(peaks, bit_len) is None,
    decreases peaks.len(),
{
    if peaks.len() > 0 {
        assert forall|i: int| 0 <= i < peaks.drop_first().len() implies (
        #[trigger] peaks.drop_first()[i]).index < bit_len && 1 <= peaks.drop_first()[i].amplitude
            <= 31 by {
            assert(peaks[i + 1] == peaks.drop_first()[i]);
        }
        lemma_faultless_peaks(peaks.drop_first(), bit_len);
    }
}

/// A valid program is read back from the key it packs to.
pub proof fn law_program_roundtrip(p: SpectralPlan)
    requires
        program_fault(p) is None,
    ensures
        packed_program(p) is Ok,
        program_of(packed_program(p)->Ok_0) == Ok::<SpectralPlan, Seq<char>>(p),
{
    let raw = program_word(p);
    let (f0, f1, f2) = (peak_fields(p.peaks, 0), peak_fields(p.peaks, 1), peak_fields(p.peaks, 2));
    let log = index_width(p.bit_len);
    lemma_sound_peaks(p.peaks, p.bit_len);
    lemma_pow2_width(p.bit_len);
    vstd::arithmetic::power2::lemma2_to64();
    if log > 13 {
        vstd::arithmetic::power2::lemma_pow2_strictly_increases(13, log);
    }
    if log == 0 {
        assert(pow2(0) == 1);
    }
    lemma_spectral_word(
        (f0.0, f1.0, f2.0),
        (f0.1, f1.1, f2.1),
        (f0.2, f1.2, f2.2),
        (p.peaks.len() - 1) as u64,
        log as u64,
        if p.tie_bit {
            1
        } else {
            0
        },
    );
    let q = program_fields(raw);
    assert(q.peaks.len() == p.peaks.len());
    assert forall|i: int| 0 <= i < p.peaks.len() implies q.peaks[i] == p.peaks[i] by {
        assert(p.peaks[i].index < p.bit_len);
        if i == 0 {
        } else if i == 1 {
        } else {
            assert(i == 2);
        }
    }
    assert(q =~= p);
}

/// A key that records a fingerprint and a step count.
#[derive(Clone, Copy, Debug, Eq, Ord, PartialEq, PartialOrd)]
pub struct TrajectoryKey(u64);

impl View for TrajectoryKey {
    type V = u64;

    closed spec fn view(&self) -> u64 {
        self.0
    }
}

/// The low 58 bits of a trajectory word.
pub open spec fn payload_of(raw: u64) -> u64 {
    raw & 0x03FF_FFFF_FFFF_FFFFu64
}

/// What a fingerprint and a step count pack to.
pub open spec fn packed_payload(fingerprint: u64, steps: u8) -> Result<u64, Seq<char>> {
    if !(1 <= steps < 64) {
        Err("trajectory step count must be in 1..64"@)
    } else {
        Ok(payload_of(fingerprint) | ((steps as u64) << 58))
    }
}

/// The step count a word stands for.
pub open spec fn steps_of(raw: u64) -> Result<u8, Seq<char>> {
    let steps = ((raw >> 58) & 0x3Fu64) as u8;
    if !(1 <= steps < 64) {
        Err("trajectory K stores an invalid step count"@)
    } else {
        Ok(steps)
    }
}

impl TrajectoryKey {
    pub fn from_payload(fingerprint: u64, steps: u8) -> (r: Result<Self, String>)
        ensures
            outcome(r) == packed_payload(fingerprint, steps),
    {
        if steps < 1 || steps >= 64 {
            return Err("trajectory step count must be in 1..64".to_string());
        }
        Ok(TrajectoryKey((fingerprint & 0x03FF_FFFF_FFFF_FFFF) | ((steps as u64) << 58)))
    }

    pub fn payload(self) -> (p: u64)
        ensures
            p == payload_of(self@),
    {
        self.0 & 0x03FF_FFFF_FFFF_FFFF
    }

    pub fn steps(self) -> (r: Result<u8, String>)
        ensures
            outcome(r) == steps_of(self@),
    {
        let steps: u8 = ((self.0 >> 58) & 0x3F) as u8;
        if steps < 1 || steps >= 64 {
            return Err("trajectory K stores an invalid step count".to_string());
        }
        Ok(steps)
    }

    pub fn serialize(self) -> (bytes: [u8; 8])
        ensures
            bytes@ == le_bytes(self@ as nat, 8),
    {
        word_bytes(self.0)
    }

    /// Takes eight bytes that hold a valid step count.
    pub fn parse(bytes: &[u8]) -> (r: Result<Self, String>)
        ensures
            match r {
                Ok(key) => key_word(bytes@) == Ok::<u64, Seq<char>>(key@) && steps_of(key@) is Ok,
                Err(e) => match key_word(bytes@) {
                    Ok(raw) => steps_of(raw) == Err::<u8, Seq<char>>(e@),
                    Err(m) => m == e@,
                },
            },
    {
        match parse_u64(bytes) {
            Err(e) => Err(e),
            Ok(raw) => {
                let key = TrajectoryKey(raw);
                match key.steps() {
                    Ok(_) => Ok(key),
                    Err(e) => Err(e),
                }
            },
        }
    }

    pub fn raw(self) -> (raw: u64)
        ensures
            raw == self@,
    {
        self.0
    }

    pub fn encoded_bit_len(self) -> (n: usize)
        ensures
            n == 64,
    {
        64
    }
}

/// A trajectory key gives back its step count and the low 58 bits of the
/// fingerprint.
pub proof fn law_payload_roundtrip(fingerprint: u64, steps: u8)
    requires
        1 <= steps < 64,
    ensures
        packed_payload(fingerprint, steps) is Ok,
        steps_of(packed_payload(fingerprint, steps)->Ok_0) == Ok::<u8, Seq<char>>(steps),
        payload_of(packed_payload(fingerprint, steps)->Ok_0) == payload_of(fingerprint),
{
    let s = steps as u64;
    let raw = (fingerprint & 0x03FF_FFFF_FFFF_FFFFu64) | (s << 58);
    assert((raw >> 58) & 0x3Fu64 == s && raw & 0x03FF_FFFF_FFFF_FFFFu64 == fingerprint
        & 0x03FF_FFFF_FFFF_FFFFu64) by (bit_vector)
        requires
            raw == (fingerprint & 0x03FF_FFFF_FFFF_FFFFu64) | (s << 58),
            s < 64,
    ;
}

/// The parameters of a word operator.
#[derive(Clone, Copy, Debug, Eq, PartialEq)]
pub struct OperatorBlueprint {
    pub dominant_index: u16,
    pub dominant_positive: bool,
    pub primary_shift: u8,
    pub shift_match: u16,
    pub derivative_density: u8,
    pub popcnt_density: u8,
    pub secondary_delta: u8,
    pub tertiary_delta: u8,
    pub fingerprint_bias: u8,
}

/// Every field fits in its place.
pub open spec fn blueprint_fits(b: OperatorBlueprint) -> bool {
    &&& b.dominant_index < 8192
    &&& 1 <= b.primary_shift < 32
    &&& b.shift_match < 512
    &&& b.secondary_delta < 32
    &&& b.tertiary_delta < 32
    &&& b.fingerprint_bias < 32
}

/// The word that holds a blueprint.
pub open spec fn blueprint_word(b: OperatorBlueprint) -> u64 {
    (b.dominant_index as u64) | ((if b.dominant_positive {
        1u64
    } else {
        0u64
    }) << 13) | ((b.primary_shift as u64) << 14) | ((b.shift_match as u64) << 19) | ((
    b.derivative_density as u64) << 28) | ((b.popcnt_density as u64) << 36) | ((
    b.secondary_delta as u64) << 44) | ((b.tertiary_delta as u64) << 49) | ((
    b.fingerprint_bias as u64) << 54)
}

/// What a blueprint packs to.
pub open spec fn packed_blueprint(b: OperatorBlueprint) -> Result<u64, Seq<char>> {
    if blueprint_fits(b) {
        Ok(blueprint_word(b))
    } else {
        Err("operator blueprint field is out of range"@)
    }
}

/// The blueprint a word spells, valid or not.
pub open spec fn blueprint_fields(raw: u64) -> OperatorBlueprint {
    OperatorBlueprint {
        dominant_index: (raw & 0x1FFFu64) as u16,
        dominant_positive: (raw >> 13) & 1u64 == 1,
        primary_shift: ((raw >> 14) & 0x1Fu64) as u8,
        shift_match: ((raw >> 19) & 0x1FFu64) as u16,
        derivative_density: ((raw >> 28) & 0xFFu64) as u8,
        popcnt_density: ((raw >> 36) & 0xFFu64) as u8,
        secondary_delta: ((raw >> 44) & 0x1Fu64) as u8,
        tertiary_delta: ((raw >> 49) & 0x1Fu64) as u8,
        fingerprint_bias: ((raw >> 54) & 0x1Fu64) as u8,
    }
}

/// The blueprint a word stands for.
pub open spec fn blueprint_of(raw: u64) -> Result<OperatorBlueprint, Seq<char>> {
    if raw >> 59 != 0 {
        Err("operator K contains unused bits"@)
    } else if blueprint_fields(raw).primary_shift == 0 {
        Err("operator K stores an invalid shift"@)
    } else {
        Ok(blueprint_fields(raw))
    }
}

/// What a key was made for.
#[derive(Clone, Copy, Debug, Eq, PartialEq, PartialOrd, Ord, Structural)]
pub enum MagicKeyKind {
    Spectral,
    Trajectory,
    Operator,
}

/// A 64-bit constant. A key that was read from bytes may serve any purpose.
#[derive(Clone, Copy, Debug, Eq, PartialEq, PartialOrd, Ord)]
pub struct MagicKey {
    raw: u64,
    kind: Option<MagicKeyKind>,
}

impl View for MagicKey {
    type V = u64;

    closed spec fn view(&self) -> u64 {
        self.raw
    }
}

impl MagicKey {
    /// What the key was made for, where that is known.
    pub closed spec fn purpose(&self) -> Option<MagicKeyKind> {
        self.kind
    }

    pub fn from_spectral_program(program: &SpectralProgram) -> (r: Result<Self, String>)
        ensures
            outcome(r) == packed_program(program@),
            r matches Ok(key) ==> key.purpose() == Some(MagicKeyKind::Spectral),
    {
        match SpectralKey::from_program(program) {
            Ok(key) => Ok(MagicKey { raw: key.raw(), kind: Some(MagicKeyKind::Spectral) }),
            Err(e) => Err(e),
        }
    }

    pub fn from_trajectory_payload(fingerprint: u64, steps: u8) -> (r: Result<Self, String>)
        ensures
            outcome(r) == packed_payload(fingerprint, steps),
            r matches Ok(key) ==> key.purpose() == Some(MagicKeyKind::Trajectory),
    {
        match TrajectoryKey::from_payload(fingerprint, steps) {
            Ok(key) => Ok(MagicKey { raw: key.raw(), kind: Some(MagicKeyKind::Trajectory) }),
            Err(e) => Err(e),
        }
    }

    pub fn from_operator_blueprint(b: &OperatorBlueprint) -> (r: Result<Self, String>)
        ensures
            outcome(r) == packed_blueprint(*b),
            r matches Ok(key) ==> key.purpose() == Some(MagicKeyKind::Operator),
    {
        if b.dominant_index >= 8192 || b.primary_shift < 1 || b.primary_shift >= 32 || b.shift_match
            >= 512 || b.secondary_delta >= 32 || b.tertiary_delta >= 32 || b.fingerprint_bias
            >= 32 {
            return Err("operator blueprint field is out of range".to_string());
        }
        let positive: u64 = if b.dominant_positive {
            1
        } else {
            0
        };
        let raw: u64 = (b.dominant_index as u64) | (positive << 13) | ((b.primary_shift as u64)
            << 14) | ((b.shift_match as u64) << 19) | ((b.derivative_density as u64) << 28) | ((
        b.popcnt_density as u64) << 36) | ((b.secondary_delta as u64) << 44) | ((
        b.tertiary_delta as u64) << 49) | ((b.fingerprint_bias as u64) << 54);
        Ok(MagicKey { raw, kind: Some(MagicKeyKind::Operator) })
    }

    pub fn parse(bytes: &[u8]) -> (r: Result<Self, String>)
        ensures
            outcome(r) == key_word(bytes@),
            r matches Ok(key) ==> key.purpose() is None,
    {
        match parse_u64(bytes) {
            Ok(raw) => Ok(MagicKey { raw, kind: None }),
            Err(e) => Err(e),
        }
    }

    /// Refuses a key that was made for something else.
    pub fn require_kind(self, kind: MagicKeyKind) -> (r: Result<Self, String>)
        ensures
            match r {
                Ok(key) => key == self && (self.purpose() is None || self.purpose() == Some(kind)),
                Err(e) => self.purpose() is Some && self.purpose() != Some(kind) && e@
                    == "magic K was made for another purpose"@,
            },
    {
        match self.kind {
            Some(own) => {
                if own == kind {
                    Ok(self)
                } else {
                    Err("magic K was made for another purpose".to_string())
                }
            },
            None => Ok(self),
        }
    }

    pub fn spectral_program(self) -> (r: Result<SpectralProgram, String>)
        ensures
            outcome(r) == program_of(self@),
    {
        SpectralKey(self.raw).program()
    }

    pub fn trajectory_steps(self) -> (r: Result<u8, String>)
        ensures
            outcome(r) == steps_of(self@),
    {
        TrajectoryKey(self.raw).steps()
    }

    pub fn operator_blueprint(self) -> (r: Result<OperatorBlueprint, String>)
        ensures
            match r {
                Ok(b) => blueprint_of(self@) == Ok::<OperatorBlueprint, Seq<char>>(b),
                Err(e) => blueprint_of(self@) == Err::<OperatorBlueprint, Seq<char>>(e@),
            },
    {
        let raw: u64 = self.raw;
        if raw >> 59 != 0 {
            return Err("operator K contains unused bits".to_string());
        }
        let b = OperatorBlueprint {
            dominant_index: (raw & 0x1FFF) as u16,
            dominant_positive: (raw >> 13) & 1 == 1,
            primary_shift: ((raw >> 14) & 0x1F) as u8,
            shift_match: ((raw >> 19) & 0x1FF) as u16,
            derivative_density: ((raw >> 28) & 0xFF) as u8,
            popcnt_density: ((raw >> 36) & 0xFF) as u8,
            secondary_delta: ((raw >> 44) & 0x1F) as u8,
            tertiary_delta: ((raw >> 49) & 0x1F) as u8,
            fingerprint_bias: ((raw >> 54) & 0x1F) as u8,
        };
        if b.primary_shift == 0 {
            return Err("operator K stores an invalid shift".to_string());
        }
        Ok(b)
    }

    pub fn serialize(self) -> (bytes: [u8; 8])
        ensures
            bytes@ == le_bytes(self@ as nat, 8),
    {
        word_bytes(self.raw)
    }

    pub fn raw(self) -> (raw: u64)
        ensures
            raw == self@,
    {
        self.raw
    }

    pub fn encoded_bit_len(self) -> (n: usize)
        ensures
            n == 64,
    {
        64
    }
}

/// A blueprint that fits is read back from the key it packs to.
pub proof fn law_blueprint_roundtrip(b: OperatorBlueprint)
    requires
        blueprint_fits(b),
    ensures
        packed_blueprint(b) is Ok,
        blueprint_of(packed_blueprint(b)->Ok_0) == Ok::<OperatorBlueprint, Seq<char>>(b),
{
    let (d, p, s, m) = (
        b.dominant_index as u64,
        if b.dominant_positive {
            1u64
        } else {
            0u64
        },
        b.primary_shift as u64,
        b.shift_match as u64,
    );
    let (q, c, e, t, f) = (
        b.derivative_density as u64,
        b.popcnt_density as u64,
        b.secondary_delta as u64,
        b.tertiary_delta as u64,
        b.fingerprint_bias as u64,
    );
    let raw = blueprint_word(b);
    assert(raw >> 59 == 0 && raw & 0x1FFFu64 == d && (raw >> 13) & 1u64 == p && (raw >> 14) & 0x1Fu64
        == s && (raw >> 19) & 0x1FFu64 == m && (raw >> 28) & 0xFFu64 == q && (raw >> 36) & 0xFFu64
        == c && (raw >> 44) & 0x1Fu64 == e && (raw >> 49) & 0x1Fu64 == t && (raw >> 54) & 0x1Fu64
        == f) by (bit_vector)
        requires
            d < 8192 && p < 2 && s < 32 && m < 512 && q < 256 && c < 256 && e < 32 && t < 32 && f
                < 32,
            raw == d | (p << 13) | (s << 14) | (m << 19) | (q << 28) | (c << 36) | (e << 44) | (t
                << 49) | (f << 54),
    ;
}

/// A key is read back from the bytes it serialises to.
pub proof fn law_key_bytes_roundtrip(raw: u64)
    ensures
        key_word(le_bytes(raw as nat, 8)) == Ok::<u64, Seq<char>>(raw),
{
    vstd::arithmetic::power2::lemma2_to64_rest();
    crate::words::lemma_le_roundtrip(raw as nat, 8);
}

/// The parameters of an operator that is steered by a crumb stream.
#[derive(Clone, Copy, Debug, Eq, PartialEq)]
pub struct GenerativeBlueprint {
    pub hadamard_log_n: u8,
    pub hadamard_parity: u16,
    pub channel_m0: u8,
    pub channel_m1: u8,
    pub channel_m2: u8,
    pub channel_m3: u8,
    pub clean_mask: u8,
    pub reserved: u32,
}

/// A constant can be made of a layout, and is read, exactly where rounds,
/// rotations and shift are in their ranges, the multiplier is odd, the mask has
/// at least as many bits as there are rounds, and an affine mask is there unless
/// the family is the one without.
pub proof fn law_sound_layout(l: ConstantLayout, bytes: Seq<u8>)
    ensures
        packed_layout(l) is Ok <==> sound_layout(l),
        layout_of(bytes) matches Ok(read) ==> sound_layout(read) && bytes[0]
            == PACKED_CONSTANT_VERSION && bytes.len() == (if read.affine_mask is Some {
            PACKED_CONSTANT_FIXED_BYTES + 8
        } else {
            PACKED_CONSTANT_FIXED_BYTES as int
        }),
{
    lemma_ones_of_zero();
}

proof fn lemma_ones_of_zero()
    ensures
        ones(0) == 0,
{
}

/// The fields of a layout make sense.
pub open spec fn sound_layout(l: ConstantLayout) -> bool {
    &&& 1 <= l.branch_rounds <= 16
    &&& l.branch_rounds <= ones(l.dominant_walsh_mask as nat)
    &&& 1 <= l.rotate_left <= 63
    &&& 1 <= l.rotate_right <= 63
    &&& 1 <= l.gf2_shift <= 63
    &&& l.branch_stride > 0
    &&& l.branch_span > 0
    &&& l.odd_multiplier % 2 == 1
    &&& l.affine_mask is Some <==> l.family != ConstantFamily::PhaseXor
}

/// A spectral key can be made of a program exactly where it is for a power of
/// two of bits, from 2 to 8192, and has one to three peaks within the block,
/// with strengths from 1 to 31. No key is read as another program.
pub proof fn law_sound_program(p: SpectralPlan, raw: u64)
    ensures
        packed_program(p) is Ok <==> sound_program(p),
        program_of(raw) matches Ok(read) ==> sound_program(read),
{
    lemma_sound_or_faulty(p.peaks, p.bit_len);
    let read = program_fields(raw);
    lemma_sound_or_faulty(read.peaks, read.bit_len);
}

/// The fields of a program make sense.
pub open spec fn sound_program(p: SpectralPlan) -> bool {
    &&& is_pow2(p.bit_len as int)
    &&& 2 <= p.bit_len <= 8192
    &&& 1 <= p.peaks.len() <= 3
    &&& forall|i: int|
        0 <= i < p.peaks.len() ==> (#[trigger] p.peaks[i]).index < p.bit_len && 1
            <= p.peaks[i].amplitude <= 31
}

proof fn lemma_sound_or_faulty(peaks: Seq<SpectralPeakCode>, bit_len: nat)
    ensures
        peaks_fault(peaks, bit_len) is None <==> forall|i: int|
            0 <= i < peaks.len() ==> (#[trigger] peaks[i]).index < bit_len && 1
                <= peaks[i].amplitude <= 31,
    decreases peaks.len(),
{
    if peaks.len() > 0 {
        let rest = peaks.drop_first();
        lemma_sound_or_faulty(rest, bit_len);
        if peaks_fault(peaks, bit_len) is None {
            assert forall|i: int| 0 <= i < peaks.len() implies (#[trigger] peaks[i]).index < bit_len
                && 1 <= peaks[i].amplitude <= 31 by {
                if i > 0 {
                    assert(rest[i - 1] == peaks[i]);
                }
            }
        }
        if forall|i: int|
            0 <= i < peaks.len() ==> (#[trigger] peaks[i]).index < bit_len && 1
                <= peaks[i].amplitude <= 31 {
            assert forall|i: int| 0 <= i < rest.len() implies (#[trigger] rest[i]).index < bit_len
                && 1 <= rest[i].amplitude <= 31 by {
                assert(rest[i] == peaks[i + 1]);
            }
            assert(peaks[0].index < bit_len);
        }
    }
}

} // verus!
