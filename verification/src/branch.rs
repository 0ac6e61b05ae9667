//! The log of branch decisions.
//!
//! At every step of an expansion where two trajectories are possible, one bit
//! tells which of them was taken. The log is as long as the expansion has
//! steps, whatever the size of the block.
use vstd::prelude::*;
use crate::bitstream::{packed_bits, stream_bit, BitSink};
use crate::words::{count_ones, le_bytes, le_value, ones, push_le, read_le};

verus! {

/// One decision.
#[derive(Debug, Clone, Copy, PartialEq, Eq, Structural)]
pub enum BranchBit {
    Even,
    Odd,
}

/// The decision that a truth value stands for.
pub open spec fn branch_of(b: bool) -> BranchBit {
    if b {
        BranchBit::Odd
    } else {
        BranchBit::Even
    }
}

impl From<bool> for BranchBit {
    fn from(b: bool) -> (bit: Self) {
        if b {
            BranchBit::Odd
        } else {
            BranchBit::Even
        }
    }
}

impl vstd::std_specs::convert::FromSpecImpl<bool> for BranchBit {
    open spec fn obeys_from_spec() -> bool {
        true
    }

    open spec fn from_spec(b: bool) -> Self {
        branch_of(b)
    }
}

/// A log of decisions, one bit each.
#[derive(Debug, Clone, Default)]
pub struct BranchVector {
    bits: BitSink,
    len: usize,
}

impl View for BranchVector {
    type V = Seq<bool>;

    closed spec fn view(&self) -> Seq<bool> {
        self.bits.bits()
    }
}

/// The bits of a log as it is written.
pub open spec fn branch_wire(bits: Seq<bool>) -> Seq<u8> {
    le_bytes(bits.len(), 4) + packed_bits(bits)
}

/// The log that the bytes hold, if they hold one: bytes behind it are left
/// alone.
pub open spec fn branch_read(src: Seq<u8>) -> Option<Seq<bool>> {
    if src.len() < 4 {
        None
    } else {
        let n = le_value(src.take(4));
        if src.len() < 4 + (n + 7) / 8 {
            None
        } else {
            Some(Seq::new(n, |i: int| stream_bit(src.skip(4), i)))
        }
    }
}

impl BranchVector {
    pub closed spec fn wf(&self) -> bool {
        self.bits.wf() && self.len == self.bits.bits().len()
    }

    /// An empty log.
    pub fn new() -> (v: Self)
        ensures
            v.wf(),
            v@ == Seq::<bool>::empty(),
    {
        BranchVector { bits: BitSink::new(), len: 0 }
    }

    /// Appends a decision.
    pub fn push(&mut self, bit: BranchBit)
        requires
            old(self).wf(),
            old(self)@.len() < usize::MAX,
        ensures
            final(self).wf(),
            final(self)@ == old(self)@.push(bit == BranchBit::Odd),
    {
        self.bits.push(bit == BranchBit::Odd);
        self.len = self.len + 1;
    }

    /// Decision `i`.
    pub fn get(&self, i: usize) -> (bit: BranchBit)
        requires
            self.wf(),
            i < self@.len(),
        ensures
            bit == branch_of(self@[i as int]),
    {
        if self.bits.get(i) {
            BranchBit::Odd
        } else {
            BranchBit::Even
        }
    }

    /// How many decisions there are.
    pub fn len(&self) -> (n: usize)
        requires
            self.wf(),
        ensures
            n == self@.len(),
    {
        self.len
    }

    /// Whether there is no decision.
    pub fn is_empty(&self) -> (empty: bool)
        requires
            self.wf(),
        ensures
            empty == (self@.len() == 0),
    {
        self.len == 0
    }

    /// How many bytes the decisions take.
    pub fn byte_len(&self) -> (n: usize)
        requires
            self.wf(),
        ensures
            n == (self@.len() + 7) / 8,
    {
        if self.len % 8 == 0 {
            self.len / 8
        } else {
            self.len / 8 + 1
        }
    }

    /// Writes the log: the number of decisions, then the decisions.
    pub fn to_bytes(&self) -> (out: Vec<u8>)
        requires
            self.wf(),
        ensures
            out@ == branch_wire(self@),
    {
        let mut out: Vec<u8> = Vec::new();
        push_le(&mut out, self.len as u64, 4);
        let bytes = self.bits.to_bytes();
        out.extend_from_slice(bytes.as_slice());
        assert(out@ =~= branch_wire(self@));
        out
    }

    /// Reads a log.
    pub fn from_bytes(src: &[u8]) -> (r: Option<Self>)
        ensures
            match r {
                Some(v) => v.wf() && branch_read(src@) == Some(v@),
                None => branch_read(src@) is None,
            },
    {
        if src.len() < 4 {
            return None;
        }
        let len: u64 = read_le(src, 0, 4);
        proof {
            assert(src@.subrange(0, 4) =~= src@.take(4));
            crate::words::lemma_le_value(src@.take(4));
            vstd::arithmetic::power2::lemma2_to64();
        }
        let bytes: u64 = (len + 7) / 8;
        let room: u64 = (src.len() - 4) as u64;
        if room < bytes {
            return None;
        }
        let mut v = BranchVector::new();
        let n: usize = len as usize;
        let ghost tail = src@.skip(4);
        for i in 0..n
            invariant
                v.wf(),
                n <= 0xFFFF_FFFF,
                tail == src@.skip(4),
                4 + (n + 7) / 8 <= src@.len(),
                v@ == Seq::new(i as nat, |k: int| stream_bit(tail, k)),
        {
            let at: u8 = (i % 8) as u8;
            let bit: bool = (src[4 + i / 8] >> at) & 1 == 1;
            assert(tail[i as int / 8] == src@[4 + i as int / 8]);
            v.push(if bit { BranchBit::Odd } else { BranchBit::Even });
            assert(v@ =~= Seq::new((i + 1) as nat, |k: int| stream_bit(tail, k)));
        }
        Some(v)
    }
}

/// Reading a written log gives the log back.
pub proof fn law_branch_vector_roundtrip(bits: Seq<bool>)
    requires
        bits.len() <= u32::MAX,
    ensures
        branch_read(branch_wire(bits)) == Some(bits),
{
    let w = branch_wire(bits);
    vstd::arithmetic::power2::lemma2_to64();
    crate::words::lemma_le_roundtrip(bits.len(), 4);
    crate::words::lemma_le_bytes_len(bits.len(), 4);
    assert(w.take(4) =~= le_bytes(bits.len(), 4));
    assert(w.skip(4) =~= packed_bits(bits));
    let got = Seq::new(bits.len(), |i: int| stream_bit(packed_bits(bits), i));
    assert forall|i: int| 0 <= i < bits.len() implies got[i] == bits[i] by {
        crate::bitstream::lemma_packed_bit(bits, i);
    }
    assert(got =~= bits);
}

/// The parity of the number of set bits.
pub fn parity64(v: u64) -> (bit: BranchBit)
    ensures
        bit == branch_of(ones(v as nat) % 2 == 1),
{
    if count_ones(v) % 2 == 1 {
        BranchBit::Odd
    } else {
        BranchBit::Even
    }
}

/// The decision on a state under a mask.
pub open spec fn branch_taken(state: u64, phase_mask: u64) -> bool {
    ones((state & phase_mask) as nat) % 2 == 1
}

/// The state after a decision.
pub open spec fn branched(state: u64, phase_mask: u64, odd: bool) -> u64 {
    if odd {
        state ^ phase_mask
    } else {
        state
    }
}

/// Decides on a branch, and flips the phase where it is odd.
pub fn branch_step(state: u64, phase_mask: u64) -> (r: (u64, BranchBit))
    ensures
        r.1 == branch_of(branch_taken(state, phase_mask)),
        r.0 == branched(state, phase_mask, branch_taken(state, phase_mask)),
{
    let bit = parity64(state & phase_mask);
    let next: u64 = if bit == BranchBit::Odd {
        state ^ phase_mask
    } else {
        state
    };
    (next, bit)
}

/// With its decision a step can be undone.
pub proof fn law_branch_step_is_undone(state: u64, phase_mask: u64)
    ensures
        branched(
            branched(state, phase_mask, branch_taken(state, phase_mask)),
            phase_mask,
            branch_taken(state, phase_mask),
        ) == state,
{
    crate::words::lemma_xor(state, phase_mask);
}

/// A step changes the state exactly where the decision is odd, and then turns
/// around the bits of the mask and no others.
pub proof fn law_odd_branch_turns_mask(state: u64, phase_mask: u64)
    ensures
        ({
            let odd = branch_taken(state, phase_mask);
            let next = branched(state, phase_mask, odd);
            &&& next != state <==> odd
            &&& odd ==> next ^ state == phase_mask
        }),
{
    crate::words::lemma_xor(phase_mask, state);
    crate::words::lemma_xor(state, phase_mask);
    assert(ones(0) == 0);
}

/// A written log is read back whatever bytes follow it, and refused where bytes
/// at its end are missing.
pub proof fn law_log_needs_its_bytes(bits: Seq<bool>, tail: Seq<u8>, k: int)
    requires
        bits.len() < 0x1_0000_0000,
        0 <= k < branch_wire(bits).len(),
    ensures
        branch_read(branch_wire(bits) + tail) == Some(bits),
        branch_read(branch_wire(bits).take(k)) is None,
        branch_wire(bits).len() == 4 + (bits.len() + 7) / 8,
{
    let w = branch_wire(bits);
    let all = w + tail;
    vstd::arithmetic::power2::lemma2_to64();
    crate::words::lemma_le_roundtrip(bits.len(), 4);
    crate::words::lemma_le_bytes_len(bits.len(), 4);
    assert(all.take(4) =~= le_bytes(bits.len(), 4));
    let got = Seq::new(bits.len(), |i: int| stream_bit(all.skip(4), i));
    assert forall|i: int| 0 <= i < bits.len() implies got[i] == bits[i] by {
        assert(all.skip(4)[i / 8] == packed_bits(bits)[i / 8]);
        crate::bitstream::lemma_packed_bit(bits, i);
    }
    assert(got =~= bits);
    if k >= 4 {
        assert(w.take(k).take(4) =~= le_bytes(bits.len(), 4));
    }
}

} // verus!
