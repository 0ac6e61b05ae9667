//! A Feistel network: it can be undone whatever its round function does.
use vstd::prelude::*;
use crate::words::{count_ones, ones};

verus! {

/// The parameters of one round.
#[derive(Clone, Copy, Debug, Eq, PartialEq, Structural)]
pub struct FeistelRoundKey {
    pub shift_left: u8,
    pub shift_right: u8,
    pub rotate: u8,
    pub odd_multiplier: u32,
    pub add: u32,
    pub mask: u32,
}

/// What is wrong with a round, if anything.
pub open spec fn round_fault(k: FeistelRoundKey) -> Option<Seq<char>> {
    if !(1 <= k.shift_left < 32) {
        Some("left shift must be in 1..32"@)
    } else if !(1 <= k.shift_right < 32) {
        Some("right shift must be in 1..32"@)
    } else if k.rotate >= 32 {
        Some("rotate must be below 32"@)
    } else if k.odd_multiplier % 2 == 0 {
        Some("Feistel multiplier must be odd"@)
    } else {
        None
    }
}

impl FeistelRoundKey {
    /// Checks the round.
    pub fn validate(&self) -> (r: Result<(), String>)
        ensures
            match r {
                Ok(_) => round_fault(*self) is None,
                Err(e) => round_fault(*self) == Some(e@),
            },
    {
        if self.shift_left == 0 || self.shift_left >= 32 {
            return Err("left shift must be in 1..32".to_string());
        }
        if self.shift_right == 0 || self.shift_right >= 32 {
            return Err("right shift must be in 1..32".to_string());
        }
        if self.rotate >= 32 {
            return Err("rotate must be below 32".to_string());
        }
        if self.odd_multiplier % 2 == 0 {
            return Err("Feistel multiplier must be odd".to_string());
        }
        Ok(())
    }
}

/// The rounds of a network.
#[derive(Clone, Debug, Eq, PartialEq)]
pub struct FeistelKey {
    pub rounds: Vec<FeistelRoundKey>,
}

impl View for FeistelKey {
    type V = Seq<FeistelRoundKey>;

    open spec fn view(&self) -> Seq<FeistelRoundKey> {
        self.rounds@
    }
}

/// The fault of the first faulty round, if any.
pub open spec fn rounds_fault(rounds: Seq<FeistelRoundKey>) -> Option<Seq<char>>
    decreases rounds.len(),
{
    if rounds.len() == 0 {
        None
    } else {
        match rounds_fault(rounds.drop_last()) {
            Some(e) => Some(e),
            None => round_fault(rounds.last()),
        }
    }
}

/// What is wrong with a network, if anything.
pub open spec fn network_fault(rounds: Seq<FeistelRoundKey>) -> Option<Seq<char>> {
    if rounds.len() == 0 {
        Some("Feistel key must contain rounds"@)
    } else {
        rounds_fault(rounds)
    }
}

proof fn lemma_round_fault(rounds: Seq<FeistelRoundKey>, k: int)
    requires
        0 <= k <= rounds.len(),
        rounds_fault(rounds.take(k)) is Some,
    ensures
        rounds_fault(rounds) == rounds_fault(rounds.take(k)),
    decreases rounds.len() - k,
{
    if k == rounds.len() {
        assert(rounds.take(k) =~= rounds);
    } else {
        assert(rounds.take(k + 1).drop_last() =~= rounds.take(k));
        lemma_round_fault(rounds, k + 1);
    }
}

impl FeistelKey {
    /// Checks the network.
    pub fn validate(&self) -> (r: Result<(), String>)
        ensures
            match r {
                Ok(_) => network_fault(self@) is None,
                Err(e) => network_fault(self@) == Some(e@),
            },
    {
        let n: usize = self.rounds.len();
        if n == 0 {
            return Err("Feistel key must contain rounds".to_string());
        }
        let ghost all = self.rounds@;
        assert(all.take(0) =~= Seq::empty());
        for i in 0..n
            invariant
                all == self.rounds@,
                n == all.len(),
                n > 0,
                rounds_fault(all.take(i as int)) is None,
        {
            assert(all.take(i + 1).drop_last() =~= all.take(i as int));
            match self.rounds[i].validate() {
                Ok(_) => {},
                Err(e) => {
                    proof {
                        lemma_round_fault(all, i + 1);
                    }
                    return Err(e);
                },
            }
        }
        assert(all.take(n as int) =~= all);
        Ok(())
    }
}

/// Rotation of a half to the left, by less than its width.
pub open spec fn rotl32(x: u32, r: u32) -> u32 {
    if r == 0 {
        x
    } else {
        (x << r) | (x >> ((32 - r) as u32))
    }
}

/// The round function.
pub open spec fn round_value(value: u32, k: FeistelRoundKey) -> u32 {
    let a = value ^ (value << (k.shift_left as u32));
    let b = a ^ (a >> (k.shift_right as u32));
    let c = rotl32(b, k.rotate as u32);
    let d = c.wrapping_mul(k.odd_multiplier).wrapping_add(k.add);
    d ^ (ones((d & k.mask) as nat) as u32)
}

fn round_function(value: u32, key: &FeistelRoundKey) -> (mixed: u32)
    requires
        round_fault(*key) is None,
    ensures
        mixed == round_value(value, *key),
{
    let a: u32 = value ^ (value << (key.shift_left as u32));
    let b: u32 = a ^ (a >> (key.shift_right as u32));
    let rotate: u32 = key.rotate as u32;
    let c: u32 = if rotate == 0 {
        b
    } else {
        (b << rotate) | (b >> (32 - rotate))
    };
    let d: u32 = c.wrapping_mul(key.odd_multiplier).wrapping_add(key.add);
    d ^ count_ones((d & key.mask) as u64)
}

/// The halves of a word, the upper one first.
pub open spec fn halves(value: u64) -> (u32, u32) {
    ((value >> 32) as u32, value as u32)
}

/// The word with the given halves.
pub open spec fn joined(h: (u32, u32)) -> u64 {
    ((h.0 as u64) << 32) | (h.1 as u64)
}

/// Splitting and joining undo each other.
proof fn lemma_halves(value: u64, l: u32, r: u32)
    ensures
        joined(halves(value)) == value,
        halves(joined((l, r))) == (l, r),
{
    let (a, b) = halves(value);
    assert(((a as u64) << 32) | (b as u64) == value) by (bit_vector)
        requires
            a == (value >> 32) as u32,
            b == value as u32,
    ;
    let w = joined((l, r));
    assert((w >> 32) as u32 == l && w as u32 == r) by (bit_vector)
        requires
            w == ((l as u64) << 32) | (r as u64),
    ;
}

/// The halves after the rounds.
pub open spec fn rounds_forward(rounds: Seq<FeistelRoundKey>, h: (u32, u32)) -> (u32, u32)
    decreases rounds.len(),
{
    if rounds.len() == 0 {
        h
    } else {
        let (l, r) = rounds_forward(rounds.drop_last(), h);
        (r, l ^ round_value(r, rounds.last()))
    }
}

/// The halves before the rounds.
pub open spec fn rounds_backward(rounds: Seq<FeistelRoundKey>, h: (u32, u32)) -> (u32, u32)
    decreases rounds.len(),
{
    if rounds.len() == 0 {
        h
    } else {
        let (l, r) = h;
        rounds_backward(rounds.drop_last(), (r ^ round_value(l, rounds.last()), l))
    }
}

/// Runs the network on a word.
pub fn feistel_forward(value: u64, key: &FeistelKey) -> (r: Result<u64, String>)
    ensures
        match r {
            Ok(v) => network_fault(key@) is None && v == joined(rounds_forward(key@, halves(value))),
            Err(e) => network_fault(key@) == Some(e@),
        },
{
    match key.validate() {
        Ok(_) => {},
        Err(e) => return Err(e),
    }
    let mut left: u32 = (value >> 32) as u32;
    let mut right: u32 = value as u32;
    let n: usize = key.rounds.len();
    let ghost all = key.rounds@;
    assert(all.take(0) =~= Seq::empty());
    for i in 0..n
        invariant
            all == key.rounds@,
            n == all.len(),
            rounds_fault(all) is None,
            (left, right) == rounds_forward(all.take(i as int), halves(value)),
    {
        assert(all.take(i + 1).drop_last() =~= all.take(i as int));
        proof {
            lemma_faultless(all, i as int);
        }
        let mixed: u32 = left ^ round_function(right, &key.rounds[i]);
        left = right;
        right = mixed;
    }
    assert(all.take(n as int) =~= all);
    Ok(((left as u64) << 32) | (right as u64))
}

/// Every round of a faultless network is faultless.
proof fn lemma_faultless(rounds: Seq<FeistelRoundKey>, i: int)
    requires
        rounds_fault(rounds) is None,
        0 <= i < rounds.len(),
    ensures
        round_fault(rounds[i]) is None,
    decreases rounds.len(),
{
    if i < rounds.len() - 1 {
        lemma_faultless(rounds.drop_last(), i);
    }
}

/// Runs the network backwards.
pub fn feistel_inverse(value: u64, key: &FeistelKey) -> (r: Result<u64, String>)
    ensures
        match r {
            Ok(v) => network_fault(key@) is None && v == joined(
                rounds_backward(key@, halves(value)),
            ),
            Err(e) => network_fault(key@) == Some(e@),
        },
{
    match key.validate() {
        Ok(_) => {},
        Err(e) => return Err(e),
    }
    let mut left: u32 = (value >> 32) as u32;
    let mut right: u32 = value as u32;
    let mut k: usize = key.rounds.len();
    let ghost all = key.rounds@;
    assert(all.take(k as int) =~= all);
    while k > 0
        invariant
            all == key.rounds@,
            k <= all.len(),
            rounds_fault(all) is None,
            rounds_backward(all, halves(value)) == rounds_backward(
                all.take(k as int),
                (left, right),
            ),
        decreases k,
    {
        assert(all.take(k as int).drop_last() =~= all.take(k - 1));
        proof {
            lemma_faultless(all, k - 1);
        }
        let mixed: u32 = right ^ round_function(left, &key.rounds[k - 1]);
        right = left;
        left = mixed;
        k = k - 1;
    }
    Ok(((left as u64) << 32) | (right as u64))
}

proof fn lemma_rounds_undone(rounds: Seq<FeistelRoundKey>, h: (u32, u32))
    ensures
        rounds_backward(rounds, rounds_forward(rounds, h)) == h,
        rounds_forward(rounds, rounds_backward(rounds, h)) == h,
    decreases rounds.len(),
{
    if rounds.len() > 0 {
        let front = rounds.drop_last();
        let last = rounds.last();
        let (l, r) = rounds_forward(front, h);
        let f = round_value(r, last);
        let g = round_value(h.0, last);
        let right = h.1;
        assert(l ^ f ^ f == l && right ^ g ^ g == right) by (bit_vector);
        lemma_rounds_undone(front, h);
        lemma_rounds_undone(front, (right ^ g, h.0));
    }
}

/// The two directions of a network undo each other on every word, whatever
/// the rounds are.
pub proof fn law_feistel_is_undone(rounds: Seq<FeistelRoundKey>, value: u64)
    ensures
        joined(rounds_backward(rounds, halves(joined(rounds_forward(rounds, halves(value))))))
            == value,
        joined(rounds_forward(rounds, halves(joined(rounds_backward(rounds, halves(value))))))
            == value,
{
    let f = rounds_forward(rounds, halves(value));
    let b = rounds_backward(rounds, halves(value));
    lemma_halves(value, f.0, f.1);
    lemma_halves(value, b.0, b.1);
    lemma_rounds_undone(rounds, halves(value));
}

/// One round after others: the right half becomes the left one, and the left
/// one comes through with the same word added, bit by bit, whatever it was.
pub proof fn law_round_swaps_halves(
    rounds: Seq<FeistelRoundKey>,
    last: FeistelRoundKey,
    h: (u32, u32),
    g: (u32, u32),
)
    ensures
        rounds_forward(rounds.push(last), h).0 == rounds_forward(rounds, h).1,
        rounds_forward(rounds, h).1 == rounds_forward(rounds, g).1 ==> (rounds_forward(
            rounds.push(last),
            h,
        ).1 as u64) ^ (rounds_forward(rounds.push(last), g).1 as u64) == (rounds_forward(
            rounds,
            h,
        ).0 as u64) ^ (rounds_forward(rounds, g).0 as u64),
{
    assert(rounds.push(last).drop_last() =~= rounds);
    let (a, b) = (rounds_forward(rounds, h).0, rounds_forward(rounds, g).0);
    let f = round_value(rounds_forward(rounds, h).1, last);
    assert(((a ^ f) as u64) ^ ((b ^ f) as u64) == (a as u64) ^ (b as u64)) by (bit_vector);
}

/// A network can be run exactly where it has rounds, and every round has shifts
/// from 1 to 31, a rotation below 32 and an odd multiplier.
pub proof fn law_sound_network(rounds: Seq<FeistelRoundKey>)
    ensures
        network_fault(rounds) is None <==> rounds.len() > 0 && forall|i: int|
            0 <= i < rounds.len() ==> {
                let k = #[trigger] rounds[i];
                &&& 1 <= k.shift_left <= 31
                &&& 1 <= k.shift_right <= 31
                &&& k.rotate <= 31
                &&& k.odd_multiplier % 2 == 1
            },
{
    lemma_sound_rounds(rounds);
    assert forall|i: int| 0 <= i < rounds.len() implies (round_fault(#[trigger] rounds[i]) is None
        <==> {
        let k = rounds[i];
        &&& 1 <= k.shift_left <= 31
        &&& 1 <= k.shift_right <= 31
        &&& k.rotate <= 31
        &&& k.odd_multiplier % 2 == 1
    }) by {}
}

proof fn lemma_sound_rounds(rounds: Seq<FeistelRoundKey>)
    ensures
        rounds_fault(rounds) is None <==> forall|i: int|
            0 <= i < rounds.len() ==> round_fault(#[trigger] rounds[i]) is None,
    decreases rounds.len(),
{
    if rounds.len() > 0 {
        let front = rounds.drop_last();
        lemma_sound_rounds(front);
        if rounds_fault(rounds) is None {
            assert forall|i: int| 0 <= i < rounds.len() implies round_fault(
                #[trigger] rounds[i],
            ) is None by {
                if i < front.len() {
                    assert(front[i] == rounds[i]);
                }
            }
        }
        if forall|i: int| 0 <= i < rounds.len() ==> round_fault(#[trigger] rounds[i]) is None {
            assert forall|i: int| 0 <= i < front.len() implies round_fault(
                #[trigger] front[i],
            ) is None by {
                assert(front[i] == rounds[i]);
            }
            assert(round_fault(rounds[rounds.len() - 1]) is None);
        }
    }
}

} // verus!
