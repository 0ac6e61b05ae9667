//! Reading fields from a byte string.
use vstd::prelude::*;
use vstd::arithmetic::power2::pow2;
use crate::codec::wire::counted;
use crate::words::{le_bytes, le_value, read_le, word_bytes};

verus! {

/// The byte at `at`, and the place behind it.
pub open spec fn byte_at(s: Seq<u8>, at: int) -> Result<(u8, int), Seq<char>> {
    if at >= s.len() {
        Err("unexpected end of archive"@)
    } else {
        Ok((s[at], at + 1))
    }
}

/// The `n` bytes at `at`, and the place behind them.
pub open spec fn field_at(s: Seq<u8>, at: int, n: int) -> Result<(Seq<u8>, int), Seq<char>> {
    if at + n > usize::MAX {
        Err("archive cursor overflow"@)
    } else if at + n > s.len() {
        Err("unexpected end of archive"@)
    } else {
        Ok((s.subrange(at, at + n), at + n))
    }
}

/// The number in the `n` bytes at `at`, and the place behind it.
pub open spec fn number_at(s: Seq<u8>, at: int, n: int) -> Result<(nat, int), Seq<char>> {
    match field_at(s, at, n) {
        Err(e) => Err(e),
        Ok((bytes, next)) => Ok((le_value(bytes), next)),
    }
}

/// The bytes behind a length of `width` bytes at `at`, and the place behind
/// them.
pub open spec fn counted_at(s: Seq<u8>, at: int, width: int) -> Result<(Seq<u8>, int), Seq<char>> {
    match number_at(s, at, width) {
        Err(e) => Err(e),
        Ok((n, next)) => field_at(s, next, n as int),
    }
}

/// The `count` words at `at` behind those already known, and the place behind
/// them.
pub open spec fn words_at(s: Seq<u8>, at: int, count: nat, known: Seq<u64>) -> Result<
    (Seq<u64>, int),
    Seq<char>,
>
    decreases count,
{
    if count == 0 {
        Ok((known, at))
    } else {
        match number_at(s, at, 8) {
            Err(e) => Err(e),
            Ok((w, next)) => words_at(s, next, (count - 1) as nat, known.push(w as u64)),
        }
    }
}

pub(crate) fn read_u8(input: &[u8], at: usize) -> (r: Result<(u8, usize), String>)
    ensures
        match r {
            Ok((v, next)) => byte_at(input@, at as int) == Ok::<(u8, int), Seq<char>>(
                (v, next as int),
            ) && next <= input@.len(),
            Err(e) => byte_at(input@, at as int) == Err::<(u8, int), Seq<char>>(e@),
        },
{
    if at >= input.len() {
        return Err("unexpected end of archive".to_string());
    }
    Ok((input[at], at + 1))
}

pub(crate) fn read_number(input: &[u8], at: usize, n: usize) -> (r: Result<(u64, usize), String>)
    requires
        n <= 8,
    ensures
        match r {
            Ok((v, next)) => number_at(input@, at as int, n as int) == Ok::<(nat, int), Seq<char>>(
                (v as nat, next as int),
            ) && next <= input@.len() && v < pow2(8 * n as nat),
            Err(e) => number_at(input@, at as int, n as int) == Err::<(nat, int), Seq<char>>(e@),
        },
{
    if at > usize::MAX - n {
        return Err("archive cursor overflow".to_string());
    }
    if at + n > input.len() {
        return Err("unexpected end of archive".to_string());
    }
    proof {
        crate::words::lemma_le_value(input@.subrange(at as int, at + n));
    }
    Ok((read_le(input, at, n), at + n))
}

pub(crate) fn read_u16(input: &[u8], at: usize) -> (r: Result<(u16, usize), String>)
    ensures
        match r {
            Ok((v, next)) => number_at(input@, at as int, 2) == Ok::<(nat, int), Seq<char>>(
                (v as nat, next as int),
            ) && next <= input@.len(),
            Err(e) => number_at(input@, at as int, 2) == Err::<(nat, int), Seq<char>>(e@),
        },
{
    proof {
        vstd::arithmetic::power2::lemma2_to64();
    }
    match read_number(input, at, 2) {
        Ok((v, next)) => Ok((v as u16, next)),
        Err(e) => Err(e),
    }
}

pub(crate) fn read_u32(input: &[u8], at: usize) -> (r: Result<(u32, usize), String>)
    ensures
        match r {
            Ok((v, next)) => number_at(input@, at as int, 4) == Ok::<(nat, int), Seq<char>>(
                (v as nat, next as int),
            ) && next <= input@.len(),
            Err(e) => number_at(input@, at as int, 4) == Err::<(nat, int), Seq<char>>(e@),
        },
{
    proof {
        vstd::arithmetic::power2::lemma2_to64();
    }
    match read_number(input, at, 4) {
        Ok((v, next)) => Ok((v as u32, next)),
        Err(e) => Err(e),
    }
}

pub(crate) fn read_u64(input: &[u8], at: usize) -> (r: Result<(u64, usize), String>)
    ensures
        match r {
            Ok((v, next)) => number_at(input@, at as int, 8) == Ok::<(nat, int), Seq<char>>(
                (v as nat, next as int),
            ) && next <= input@.len(),
            Err(e) => number_at(input@, at as int, 8) == Err::<(nat, int), Seq<char>>(e@),
        },
{
    read_number(input, at, 8)
}

pub(crate) fn read_vec(input: &[u8], at: usize, len: u64) -> (r: Result<(Vec<u8>, usize), String>)
    ensures
        match r {
            Ok((v, next)) => field_at(input@, at as int, len as int) == Ok::<
                (Seq<u8>, int),
                Seq<char>,
            >((v@, next as int)) && next <= input@.len(),
            Err(e) => field_at(input@, at as int, len as int) == Err::<(Seq<u8>, int), Seq<char>>(
                e@,
            ),
        },
{
    if len > (usize::MAX - at) as u64 {
        return Err("archive cursor overflow".to_string());
    }
    let n: usize = len as usize;
    if at + n > input.len() {
        return Err("unexpected end of archive".to_string());
    }
    let part = vstd::slice::slice_subrange(input, at, at + n);
    Ok((vstd::slice::slice_to_vec(part), at + n))
}

pub(crate) fn read_counted(input: &[u8], at: usize, width: usize) -> (r: Result<
    (Vec<u8>, usize),
    String,
>)
    requires
        width <= 8,
    ensures
        match r {
            Ok((v, next)) => counted_at(input@, at as int, width as int) == Ok::<
                (Seq<u8>, int),
                Seq<char>,
            >((v@, next as int)) && next <= input@.len(),
            Err(e) => counted_at(input@, at as int, width as int) == Err::<
                (Seq<u8>, int),
                Seq<char>,
            >(e@),
        },
{
    match read_number(input, at, width) {
        Ok((n, next)) => read_vec(input, next, n),
        Err(e) => Err(e),
    }
}

pub(crate) fn read_words(input: &[u8], at: usize, count: u16) -> (r: Result<
    (Vec<u64>, usize),
    String,
>)
    requires
        at <= input@.len(),
    ensures
        match r {
            Ok((v, next)) => words_at(input@, at as int, count as nat, Seq::empty()) == Ok::<
                (Seq<u64>, int),
                Seq<char>,
            >((v@, next as int)) && next <= input@.len() && v@.len() == count,
            Err(e) => words_at(input@, at as int, count as nat, Seq::empty()) == Err::<
                (Seq<u64>, int),
                Seq<char>,
            >(e@),
        },
{
    let mut words: Vec<u64> = Vec::new();
    let mut cursor: usize = at;
    for i in 0..count
        invariant
            cursor <= input@.len(),
            words@.len() == i,
            words_at(input@, at as int, count as nat, Seq::empty()) == words_at(
                input@,
                cursor as int,
                (count - i) as nat,
                words@,
            ),
    {
        match read_u64(input, cursor) {
            Ok((w, next)) => {
                words.push(w);
                cursor = next;
            },
            Err(e) => return Err(e),
        }
    }
    Ok((words, cursor))
}

/// The bytes `x` stand at `at`.
pub open spec fn stands_at(s: Seq<u8>, at: int, x: Seq<u8>) -> bool {
    0 <= at && at + x.len() <= s.len() <= usize::MAX && s.subrange(at, at + x.len()) == x
}

/// Of two byte strings that stand side by side, each stands on its own.
pub proof fn lemma_stands_split(s: Seq<u8>, at: int, x: Seq<u8>, y: Seq<u8>)
    requires
        stands_at(s, at, x + y),
    ensures
        stands_at(s, at, x),
        stands_at(s, at + x.len(), y),
{
    let both = s.subrange(at, at + (x + y).len());
    assert(s.subrange(at, at + x.len()) =~= both.take(x.len() as int));
    assert(both.take(x.len() as int) =~= x);
    assert(s.subrange(at + x.len(), at + x.len() + y.len()) =~= both.skip(x.len() as int));
    assert(both.skip(x.len() as int) =~= y);
}

pub proof fn lemma_byte_stands(s: Seq<u8>, at: int, b: u8)
    requires
        stands_at(s, at, seq![b]),
    ensures
        byte_at(s, at) == Ok::<(u8, int), Seq<char>>((b, at + 1)),
{
    assert(s.subrange(at, at + 1)[0] == s[at]);
}

pub proof fn lemma_number_stands(s: Seq<u8>, at: int, v: nat, n: nat)
    requires
        stands_at(s, at, le_bytes(v, n)),
        v < pow2(8 * n),
    ensures
        number_at(s, at, n as int) == Ok::<(nat, int), Seq<char>>((v, at + n)),
        le_bytes(v, n).len() == n,
{
    crate::words::lemma_le_roundtrip(v, n);
}

pub proof fn lemma_field_stands(s: Seq<u8>, at: int, x: Seq<u8>)
    requires
        stands_at(s, at, x),
    ensures
        field_at(s, at, x.len() as int) == Ok::<(Seq<u8>, int), Seq<char>>((x, at + x.len())),
{
}

pub proof fn lemma_counted_stands(s: Seq<u8>, at: int, x: Seq<u8>, width: nat)
    requires
        stands_at(s, at, counted(x, width)),
        x.len() < pow2(8 * width),
    ensures
        counted_at(s, at, width as int) == Ok::<(Seq<u8>, int), Seq<char>>(
            (x, at + counted(x, width).len()),
        ),
        number_at(s, at, width as int) == Ok::<(nat, int), Seq<char>>((x.len(), at + width)),
        stands_at(s, at + width, x),
        counted(x, width).len() == width + x.len(),
{
    crate::words::lemma_le_bytes_len(x.len(), width);
    lemma_stands_split(s, at, le_bytes(x.len(), width), x);
    lemma_number_stands(s, at, x.len(), width);
    lemma_field_stands(s, at + width, x);
}

proof fn lemma_words_from(s: Seq<u8>, at: int, words: Seq<u64>, k: nat)
    requires
        k <= words.len(),
        stands_at(s, at, word_bytes(words)),
    ensures
        words_at(s, at + 8 * k, (words.len() - k) as nat, words.take(k as int)) == Ok::<
            (Seq<u64>, int),
            Seq<char>,
        >((words, at + 8 * words.len())),
    decreases words.len() - k,
{
    let all = word_bytes(words);
    crate::words::lemma_word_bytes(words);
    if k == words.len() {
        assert(words.take(k as int) =~= words);
    } else {
        let w = words[k as int];
        let here = at + 8 * k;
        assert(s.subrange(here, here + 8) =~= s.subrange(at, at + all.len()).subrange(
            8 * k as int,
            8 * k as int + 8,
        ));
        assert(s.subrange(here, here + 8) == le_bytes(w as nat, 8));
        vstd::arithmetic::power2::lemma2_to64_rest();
        crate::words::lemma_le_bytes_len(w as nat, 8);
        lemma_number_stands(s, here, w as nat, 8);
        lemma_words_from(s, at, words, k + 1);
        assert(words.take(k as int).push(w) =~= words.take(k as int + 1));
    }
}

pub proof fn lemma_words_stand(s: Seq<u8>, at: int, words: Seq<u64>)
    requires
        stands_at(s, at, word_bytes(words)),
    ensures
        words_at(s, at, words.len(), Seq::empty()) == Ok::<(Seq<u64>, int), Seq<char>>(
            (words, at + 8 * words.len()),
        ),
        word_bytes(words).len() == 8 * words.len(),
{
    lemma_words_from(s, at, words, 0);
    assert(words.take(0) =~= Seq::empty());
    crate::words::lemma_word_bytes(words);
}

/// Two byte strings, of which each stands behind the other, stand side by
/// side.
pub proof fn lemma_stands_join(s: Seq<u8>, at: int, x: Seq<u8>, y: Seq<u8>)
    requires
        stands_at(s, at, x),
        stands_at(s, at + x.len(), y),
    ensures
        stands_at(s, at, x + y),
{
    let left = s.subrange(at, at + x.len());
    let right = s.subrange(at + x.len(), at + x.len() + y.len());
    assert(s.subrange(at, at + (x + y).len()) =~= left + right);
}

/// A byte that was read stands where it was read.
pub proof fn lemma_byte_read(s: Seq<u8>, at: int)
    requires
        byte_at(s, at) is Ok,
        0 <= at,
        s.len() <= usize::MAX,
    ensures
        byte_at(s, at)->Ok_0.1 == at + 1,
        stands_at(s, at, seq![byte_at(s, at)->Ok_0.0]),
{
    assert(s.subrange(at, at + 1) =~= seq![s[at]]);
}

/// A field that was read stands where it was read.
pub proof fn lemma_field_read(s: Seq<u8>, at: int, n: int)
    requires
        field_at(s, at, n) is Ok,
        0 <= at,
        0 <= n,
        s.len() <= usize::MAX,
    ensures
        field_at(s, at, n)->Ok_0.0.len() == n,
        field_at(s, at, n)->Ok_0.1 == at + n,
        stands_at(s, at, field_at(s, at, n)->Ok_0.0),
{
}

/// A number that was read stands where it was read.
pub proof fn lemma_number_read(s: Seq<u8>, at: int, n: nat)
    requires
        number_at(s, at, n as int) is Ok,
        0 <= at,
        s.len() <= usize::MAX,
    ensures
        number_at(s, at, n as int)->Ok_0.0 < pow2(8 * n),
        number_at(s, at, n as int)->Ok_0.1 == at + n,
        stands_at(s, at, le_bytes(number_at(s, at, n as int)->Ok_0.0, n)),
        le_bytes(number_at(s, at, n as int)->Ok_0.0, n).len() == n,
{
    lemma_field_read(s, at, n as int);
    let bytes = s.subrange(at, at + n);
    crate::words::lemma_le_value(bytes);
    assert(le_bytes(le_value(bytes), n) == bytes);
}

/// Bytes that were read behind their length stand where they were read.
pub proof fn lemma_counted_read(s: Seq<u8>, at: int, width: nat)
    requires
        counted_at(s, at, width as int) is Ok,
        0 <= at,
        s.len() <= usize::MAX,
    ensures
        ({
            let (x, next) = counted_at(s, at, width as int)->Ok_0;
            &&& x.len() < pow2(8 * width)
            &&& next == at + width + x.len()
            &&& stands_at(s, at, counted(x, width))
            &&& counted(x, width).len() == width + x.len()
        }),
{
    lemma_number_read(s, at, width);
    let (n, next) = number_at(s, at, width as int)->Ok_0;
    lemma_field_read(s, next, n as int);
    let x = field_at(s, next, n as int)->Ok_0.0;
    lemma_stands_join(s, at, le_bytes(x.len(), width), x);
}

/// Words that were read stand where they were read.
pub proof fn lemma_words_read(s: Seq<u8>, at: int, count: nat, known: Seq<u64>)
    requires
        words_at(s, at + 8 * known.len(), count, known) is Ok,
        stands_at(s, at, word_bytes(known)),
    ensures
        ({
            let (words, next) = words_at(s, at + 8 * known.len(), count, known)->Ok_0;
            &&& words.len() == known.len() + count
            &&& next == at + 8 * words.len()
            &&& stands_at(s, at, word_bytes(words))
        }),
    decreases count,
{
    if count > 0 {
        let here = at + 8 * known.len();
        lemma_number_read(s, here, 8);
        vstd::arithmetic::power2::lemma2_to64_rest();
        crate::words::lemma_word_bytes(known);
        let w = number_at(s, here, 8)->Ok_0.0 as u64;
        let more = known.push(w);
        assert(more.drop_last() =~= known);
        lemma_stands_join(s, at, word_bytes(known), le_bytes(w as nat, 8));
        assert(word_bytes(more) == word_bytes(known) + le_bytes(w as nat, 8));
        lemma_words_read(s, at, (count - 1) as nat, more);
    }
}

} // verus!
