//! Canonical orders: distinct values ascending, and indices ranked by weight.
use vstd::prelude::*;

verus! {

/// Every element precedes all later ones.
pub open spec fn chain<T>(s: Seq<T>, lt: spec_fn(T, T) -> bool) -> bool {
    forall|i: int, j: int| 0 <= i < j < s.len() ==> #[trigger] lt(s[i], s[j])
}

/// A strict total order.
pub open spec fn linear<T>(lt: spec_fn(T, T) -> bool) -> bool {
    &&& forall|a: T| !#[trigger] lt(a, a)
    &&& forall|a: T, b: T, c: T| #[trigger] lt(a, b) && #[trigger] lt(b, c) ==> lt(a, c)
    &&& forall|a: T, b: T| a == b || #[trigger] lt(a, b) || lt(b, a)
}

/// A strictly ordered sequence is determined by its elements.
pub proof fn lemma_chain_unique<T>(a: Seq<T>, b: Seq<T>, lt: spec_fn(T, T) -> bool)
    requires
        linear(lt),
        chain(a, lt),
        chain(b, lt),
        forall|x: T| a.contains(x) <==> b.contains(x),
    ensures
        a == b,
    decreases a.len(),
{
    if a.len() == 0 {
        if b.len() > 0 {
            assert(b.contains(b[0]));
        }
        assert(a =~= b);
    } else {
        assert(a.contains(a[0]));
        let j = choose|j: int| 0 <= j < b.len() && b[j] == a[0];
        assert(b.contains(b[0]));
        let i = choose|i: int| 0 <= i < a.len() && a[i] == b[0];
        if j > 0 {
            assert(lt(b[0], b[j]));
            if i > 0 {
                assert(lt(a[0], a[i]));
                assert(lt(a[0], a[0]));
            }
        }
        let p = a.drop_first();
        let q = b.drop_first();
        assert(chain(p, lt)) by {
            assert forall|x: int, y: int| 0 <= x < y < p.len() implies #[trigger] lt(p[x], p[y]) by {
                assert(lt(a[x + 1], a[y + 1]));
            }
        }
        assert(chain(q, lt)) by {
            assert forall|x: int, y: int| 0 <= x < y < q.len() implies #[trigger] lt(q[x], q[y]) by {
                assert(lt(b[x + 1], b[y + 1]));
            }
        }
        assert forall|x: T| p.contains(x) <==> q.contains(x) by {
            lemma_tail_contents(a, lt, x);
            lemma_tail_contents(b, lt, x);
        }
        lemma_chain_unique(p, q, lt);
        assert(a =~= seq![a[0]] + p);
        assert(b =~= seq![b[0]] + q);
    }
}

proof fn lemma_tail_contents<T>(s: Seq<T>, lt: spec_fn(T, T) -> bool, x: T)
    requires
        linear(lt),
        chain(s, lt),
        s.len() > 0,
    ensures
        s.drop_first().contains(x) <==> s.contains(x) && x != s[0],
{
    let t = s.drop_first();
    if t.contains(x) {
        let k = choose|k: int| 0 <= k < t.len() && t[k] == x;
        assert(s[k + 1] == x);
        assert(lt(s[0], s[k + 1]));
    }
    if s.contains(x) && x != s[0] {
        let k = choose|k: int| 0 <= k < s.len() && s[k] == x;
        assert(t[k - 1] == x);
    }
}

/// A new element has its place in a strictly ordered sequence.
proof fn lemma_chain_insert<T>(s: Seq<T>, x: T, lt: spec_fn(T, T) -> bool) -> (r: Seq<T>)
    requires
        linear(lt),
        chain(s, lt),
    ensures
        chain(r, lt),
        forall|y: T| r.contains(y) <==> s.contains(y) || y == x,
    decreases s.len(),
{
    if s.len() == 0 {
        let r = seq![x];
        assert(r[0] == x);
        assert forall|y: T| r.contains(y) <==> s.contains(y) || y == x by {
            if y == x {
                assert(r[0] == y);
            }
        }
        r
    } else if lt(s.last(), x) {
        let r = s.push(x);
        assert forall|i: int, j: int| 0 <= i < j < r.len() implies #[trigger] lt(r[i], r[j]) by {
            if j == s.len() {
                if i < s.len() - 1 {
                    assert(lt(s[i], s.last()));
                }
            } else {
                assert(lt(s[i], s[j]));
            }
        }
        assert forall|y: T| r.contains(y) <==> s.contains(y) || y == x by {
            if s.contains(y) {
                let k = choose|k: int| 0 <= k < s.len() && s[k] == y;
                assert(r[k] == y);
            }
            if y == x {
                assert(r[s.len() as int] == y);
            }
            if r.contains(y) {
                let k = choose|k: int| 0 <= k < r.len() && r[k] == y;
                if k < s.len() {
                    assert(s[k] == y);
                }
            }
        }
        r
    } else if s.last() == x {
        assert(s.contains(x));
        s
    } else {
        let front = s.drop_last();
        assert forall|i: int, j: int| 0 <= i < j < front.len() implies #[trigger] lt(
            front[i],
            front[j],
        ) by {
            assert(lt(s[i], s[j]));
        }
        let q = lemma_chain_insert(front, x, lt);
        let r = q.push(s.last());
        assert forall|i: int| 0 <= i < q.len() implies lt(#[trigger] q[i], s.last()) by {
            assert(q.contains(q[i]));
            if q[i] != x {
                let k = choose|k: int| 0 <= k < front.len() && front[k] == q[i];
                assert(lt(s[k], s[s.len() - 1]));
            }
        }
        assert forall|i: int, j: int| 0 <= i < j < r.len() implies #[trigger] lt(r[i], r[j]) by {
            if j < q.len() {
                assert(lt(q[i], q[j]));
            }
        }
        assert forall|y: T| r.contains(y) <==> s.contains(y) || y == x by {
            if r.contains(y) {
                let k = choose|k: int| 0 <= k < r.len() && r[k] == y;
                if k < q.len() {
                    assert(q[k] == y);
                    assert(q.contains(y));
                    if y != x {
                        let m = choose|m: int| 0 <= m < front.len() && front[m] == y;
                        assert(s[m] == y);
                    }
                } else {
                    assert(s[s.len() - 1] == y);
                }
            }
            if s.contains(y) || y == x {
                if y == s.last() {
                    assert(r[q.len() as int] == y);
                } else {
                    if s.contains(y) {
                        let k = choose|k: int| 0 <= k < s.len() && s[k] == y;
                        assert(front[k] == y);
                        assert(front.contains(y));
                    }
                    assert(q.contains(y));
                    let m = choose|m: int| 0 <= m < q.len() && q[m] == y;
                    assert(r[m] == y);
                }
            }
        }
        r
    }
}

/// `s` holds the values of `of`, each once, in ascending order.
pub open spec fn lists_ascending(s: Seq<u64>, of: Seq<u64>) -> bool {
    &&& forall|i: int, j: int| 0 <= i < j < s.len() ==> #[trigger] s[i] < #[trigger] s[j]
    &&& forall|x: u64| s.contains(x) <==> of.contains(x)
}

/// The distinct values of `of` in ascending order.
pub open spec fn distinct(of: Seq<u64>) -> Seq<u64> {
    choose|s: Seq<u64>| lists_ascending(s, of)
}

proof fn lemma_distinct_witness(of: Seq<u64>) -> (s: Seq<u64>)
    ensures
        lists_ascending(s, of),
    decreases of.len(),
{
    let lt = |a: u64, b: u64| a < b;
    if of.len() == 0 {
        Seq::empty()
    } else {
        let front = of.drop_last();
        let q = lemma_distinct_witness(front);
        assert(chain(q, lt));
        let r = lemma_chain_insert(q, of.last(), lt);
        assert forall|i: int, j: int| 0 <= i < j < r.len() implies #[trigger] r[i] < #[trigger] r[j] by {
            assert(lt(r[i], r[j]));
        }
        assert forall|x: u64| r.contains(x) <==> of.contains(x) by {
            if of.contains(x) && x != of.last() {
                let k = choose|k: int| 0 <= k < of.len() && of[k] == x;
                assert(front[k] == x);
            }
            if front.contains(x) {
                let k = choose|k: int| 0 <= k < front.len() && front[k] == x;
                assert(of[k] == x);
            }
            assert(of[of.len() - 1] == of.last());
        }
        r
    }
}

/// The distinct values exist, ascending, for every sequence.
pub proof fn lemma_distinct(of: Seq<u64>)
    ensures
        lists_ascending(distinct(of), of),
{
    let s = lemma_distinct_witness(of);
    assert(lists_ascending(s, of));
}

/// There is only one ascending list of the distinct values.
pub proof fn lemma_distinct_unique(s: Seq<u64>, of: Seq<u64>)
    requires
        lists_ascending(s, of),
    ensures
        s == distinct(of),
{
    let lt = |a: u64, b: u64| a < b;
    let d = distinct(of);
    assert(lists_ascending(d, of));
    assert(chain(s, lt));
    assert(chain(d, lt));
    assert forall|x: u64| s.contains(x) <==> d.contains(x) by {}
    lemma_chain_unique(s, d, lt);
}

/// Collects the distinct values of two ascending lists.
fn merge_distinct(a: &Vec<u64>, b: &Vec<u64>) -> (out: Vec<u64>)
    requires
        forall|i: int, j: int| 0 <= i < j < a@.len() ==> #[trigger] a@[i] < #[trigger] a@[j],
        forall|i: int, j: int| 0 <= i < j < b@.len() ==> #[trigger] b@[i] < #[trigger] b@[j],
    ensures
        lists_ascending(out@, a@ + b@),
{
    let mut out: Vec<u64> = Vec::new();
    let mut i: usize = 0;
    let mut j: usize = 0;
    while i < a.len() || j < b.len()
        invariant
            i <= a@.len(),
            j <= b@.len(),
            forall|x: int, y: int| 0 <= x < y < a@.len() ==> #[trigger] a@[x] < #[trigger] a@[y],
            forall|x: int, y: int| 0 <= x < y < b@.len() ==> #[trigger] b@[x] < #[trigger] b@[y],
            forall|x: int, y: int| 0 <= x < y < out@.len() ==> #[trigger] out@[x] < #[trigger] out@[y],
            forall|x: int, y: int|
                0 <= x < out@.len() && i <= y < a@.len() ==> #[trigger] out@[x] < #[trigger] a@[y],
            forall|x: int, y: int|
                0 <= x < out@.len() && j <= y < b@.len() ==> #[trigger] out@[x] < #[trigger] b@[y],
            forall|x: int| 0 <= x < i ==> out@.contains(#[trigger] a@[x]),
            forall|x: int| 0 <= x < j ==> out@.contains(#[trigger] b@[x]),
            forall|x: int|
                0 <= x < out@.len() ==> a@.contains(#[trigger] out@[x]) || b@.contains(out@[x]),
        decreases a@.len() - i + b@.len() - j,
    {
        let ghost before = out@;
        let ghost i0 = i as int;
        let ghost j0 = j as int;
        let next: u64;
        if j >= b.len() || (i < a.len() && a[i] < b[j]) {
            next = a[i];
            i = i + 1;
        } else if i >= a.len() || b[j] < a[i] {
            next = b[j];
            j = j + 1;
        } else {
            next = a[i];
            i = i + 1;
            j = j + 1;
        }
        out.push(next);
        proof {
            assert(out@[before.len() as int] == next);
            assert forall|x: u64| before.contains(x) implies out@.contains(x) by {
                let k = choose|k: int| 0 <= k < before.len() && before[k] == x;
                assert(out@[k] == x);
            }
            assert(i0 < a@.len() && a@[i0] == next || j0 < b@.len() && b@[j0] == next);
        }
    }
    proof {
        let of = a@ + b@;
        assert forall|x: u64| out@.contains(x) <==> of.contains(x) by {
            if out@.contains(x) {
                let k = choose|k: int| 0 <= k < out@.len() && out@[k] == x;
                if a@.contains(out@[k]) {
                    let m = choose|m: int| 0 <= m < a@.len() && a@[m] == x;
                    assert(of[m] == x);
                } else {
                    let m = choose|m: int| 0 <= m < b@.len() && b@[m] == x;
                    assert(of[a@.len() + m] == x);
                }
            }
            if of.contains(x) {
                let k = choose|k: int| 0 <= k < of.len() && of[k] == x;
                if k < a@.len() {
                    assert(out@.contains(a@[k]));
                } else {
                    assert(out@.contains(b@[k - a@.len()]));
                }
            }
        }
    }
    out
}

fn distinct_range(values: &[u64], lo: usize, hi: usize) -> (out: Vec<u64>)
    requires
        lo <= hi <= values@.len(),
    ensures
        lists_ascending(out@, values@.subrange(lo as int, hi as int)),
    decreases hi - lo,
{
    let ghost of = values@.subrange(lo as int, hi as int);
    if hi - lo == 0 {
        let out: Vec<u64> = Vec::new();
        out
    } else if hi - lo == 1 {
        let mut out: Vec<u64> = Vec::new();
        out.push(values[lo]);
        assert(out@ =~= of);
        out
    } else {
        let mid: usize = lo + (hi - lo) / 2;
        let a = distinct_range(values, lo, mid);
        let b = distinct_range(values, mid, hi);
        let out = merge_distinct(&a, &b);
        proof {
            let l = values@.subrange(lo as int, mid as int);
            let r = values@.subrange(mid as int, hi as int);
            assert(of =~= l + r);
            lemma_concat_contents(l, r);
            lemma_concat_contents(a@, b@);
            assert forall|x: u64| out@.contains(x) <==> of.contains(x) by {
                assert(a@.contains(x) <==> l.contains(x));
                assert(b@.contains(x) <==> r.contains(x));
            }
        }
        out
    }
}

proof fn lemma_concat_contents(a: Seq<u64>, b: Seq<u64>)
    ensures
        forall|x: u64| (a + b).contains(x) <==> a.contains(x) || b.contains(x),
{
    let of = a + b;
    assert forall|x: u64| of.contains(x) <==> a.contains(x) || b.contains(x) by {
        if a.contains(x) {
            let k = choose|k: int| 0 <= k < a.len() && a[k] == x;
            assert(of[k] == x);
        }
        if b.contains(x) {
            let k = choose|k: int| 0 <= k < b.len() && b[k] == x;
            assert(of[a.len() + k] == x);
        }
        if of.contains(x) {
            let k = choose|k: int| 0 <= k < of.len() && of[k] == x;
            if k < a.len() {
                assert(a[k] == x);
            } else {
                assert(b[k - a.len()] == x);
            }
        }
    }
}

/// Sorts values and drops repetitions.
pub fn sort_distinct(values: &[u64]) -> (out: Vec<u64>)
    ensures
        out@ == distinct(values@),
        lists_ascending(out@, values@),
{
    let out = distinct_range(values, 0, values.len());
    proof {
        assert(values@.subrange(0, values@.len() as int) =~= values@);
        lemma_distinct_unique(out@, values@);
    }
    out
}

/// Index `i` ranks before index `j`: it weighs more, or as much and comes
/// first.
pub open spec fn ranks_before(weights: Seq<u64>, i: int, j: int) -> bool {
    weights[i] > weights[j] || (weights[i] == weights[j] && i < j)
}

/// `order` holds every index of `weights` once, heaviest first.
pub open spec fn is_ranking(order: Seq<int>, weights: Seq<u64>) -> bool {
    &&& forall|p: int, q: int|
        0 <= p < q < order.len() ==> #[trigger] ranks_before(weights, order[p], order[q])
    &&& forall|i: int| order.contains(i) <==> 0 <= i < weights.len()
}

/// The indices of `weights`, heaviest first, lower indices first among equals.
pub open spec fn ranked(weights: Seq<u64>) -> Seq<int> {
    choose|order: Seq<int>| is_ranking(order, weights)
}

proof fn lemma_ranks_linear(weights: Seq<u64>)
    ensures
        linear(|i: int, j: int| ranks_before(weights, i, j)),
{
}

proof fn lemma_ranking_witness(weights: Seq<u64>, n: nat) -> (order: Seq<int>)
    requires
        n <= weights.len(),
    ensures
        chain(order, |i: int, j: int| ranks_before(weights, i, j)),
        forall|i: int| order.contains(i) <==> 0 <= i < n,
    decreases n,
{
    let lt = |i: int, j: int| ranks_before(weights, i, j);
    lemma_ranks_linear(weights);
    if n == 0 {
        Seq::empty()
    } else {
        let q = lemma_ranking_witness(weights, (n - 1) as nat);
        lemma_chain_insert(q, n - 1, lt)
    }
}

/// There is exactly one ranking, and it is as long as the weights.
pub proof fn lemma_ranked(weights: Seq<u64>)
    ensures
        is_ranking(ranked(weights), weights),
        ranked(weights).len() == weights.len(),
        forall|order: Seq<int>| is_ranking(order, weights) ==> order == ranked(weights),
{
    let lt = |i: int, j: int| ranks_before(weights, i, j);
    lemma_ranks_linear(weights);
    let w = lemma_ranking_witness(weights, weights.len());
    assert(is_ranking(w, weights)) by {
        assert forall|p: int, q: int| 0 <= p < q < w.len() implies #[trigger] ranks_before(
            weights,
            w[p],
            w[q],
        ) by {
            assert(lt(w[p], w[q]));
        }
    }
    let r = ranked(weights);
    assert(is_ranking(r, weights));
    assert forall|order: Seq<int>| is_ranking(order, weights) implies order == r by {
        assert(chain(order, lt));
        assert(chain(r, lt));
        assert forall|x: int| order.contains(x) <==> r.contains(x) by {}
        lemma_chain_unique(order, r, lt);
    }
    // every index occurs exactly once, so the lengths agree
    assert(r.no_duplicates()) by {
        assert forall|p: int, q: int| 0 <= p < r.len() && 0 <= q < r.len() && p != q implies r[p]
            != r[q] by {
            if p < q {
                assert(ranks_before(weights, r[p], r[q]));
            } else {
                assert(ranks_before(weights, r[q], r[p]));
            }
        }
    }
    r.unique_seq_to_set();
    let range = vstd::set_lib::set_int_range(0, weights.len() as int);
    vstd::set_lib::lemma_int_range(0, weights.len() as int);
    assert(r.to_set() =~= range) by {
        assert forall|i: int| r.to_set().contains(i) <==> range.contains(i) by {
            assert(r.contains(i) <==> 0 <= i < weights.len());
        }
    }
}

spec fn as_ints(s: Seq<usize>) -> Seq<int> {
    s.map_values(|x: usize| x as int)
}

/// `s` ranks the indices from `lo` up to `hi`.
spec fn ranks_range(s: Seq<usize>, weights: Seq<u64>, lo: int, hi: int) -> bool {
    &&& s.len() == hi - lo
    &&& forall|p: int, q: int|
        0 <= p < q < s.len() ==> #[trigger] ranks_before(weights, s[p] as int, s[q] as int)
    &&& forall|p: int| 0 <= p < s.len() ==> lo <= #[trigger] s[p] < hi
    &&& forall|i: usize| lo <= i < hi ==> #[trigger] s.contains(i)
}

fn merge_ranked(
    a: &Vec<usize>,
    b: &Vec<usize>,
    weights: &Vec<u64>,
    Ghost(lo): Ghost<int>,
    Ghost(mid): Ghost<int>,
    Ghost(hi): Ghost<int>,
) -> (out: Vec<usize>)
    requires
        0 <= lo <= mid <= hi <= weights@.len(),
        ranks_range(a@, weights@, lo, mid),
        ranks_range(b@, weights@, mid, hi),
    ensures
        ranks_range(out@, weights@, lo, hi),
{
    let mut out: Vec<usize> = Vec::new();
    let mut i: usize = 0;
    let mut j: usize = 0;
    while i < a.len() || j < b.len()
        invariant
            0 <= lo <= mid <= hi <= weights@.len(),
            ranks_range(a@, weights@, lo, mid),
            ranks_range(b@, weights@, mid, hi),
            i <= a@.len(),
            j <= b@.len(),
            out@.len() == i + j,
            forall|p: int, q: int|
                0 <= p < q < out@.len() ==> #[trigger] ranks_before(
                    weights@,
                    out@[p] as int,
                    out@[q] as int,
                ),
            forall|p: int, q: int|
                0 <= p < out@.len() && i <= q < a@.len() ==> #[trigger] ranks_before(
                    weights@,
                    out@[p] as int,
                    a@[q] as int,
                ),
            forall|p: int, q: int|
                0 <= p < out@.len() && j <= q < b@.len() ==> #[trigger] ranks_before(
                    weights@,
                    out@[p] as int,
                    b@[q] as int,
                ),
            forall|p: int| 0 <= p < out@.len() ==> lo <= #[trigger] out@[p] < hi,
            forall|p: int| 0 <= p < i ==> out@.contains(#[trigger] a@[p]),
            forall|p: int| 0 <= p < j ==> out@.contains(#[trigger] b@[p]),
        decreases a@.len() - i + b@.len() - j,
    {
        let ghost before = out@;
        let take_left: bool = if j >= b.len() {
            true
        } else if i >= a.len() {
            false
        } else {
            // an index of the left half is the lower one among equals
            weights[a[i]] >= weights[b[j]]
        };
        let ghost (i0, j0) = (i as int, j as int);
        let next: usize;
        if take_left {
            next = a[i];
            i = i + 1;
        } else {
            next = b[j];
            j = j + 1;
        }
        out.push(next);
        proof {
            assert(out@[before.len() as int] == next);
            assert forall|x: usize| before.contains(x) implies out@.contains(x) by {
                let k = choose|k: int| 0 <= k < before.len() && before[k] == x;
                assert(out@[k] == x);
            }
            if take_left {
                assert forall|q: int| i <= q < a@.len() implies ranks_before(
                    weights@,
                    next as int,
                    #[trigger] a@[q] as int,
                ) by {
                    assert(ranks_before(weights@, a@[i0] as int, a@[q] as int));
                }
                assert forall|q: int| j <= q < b@.len() implies ranks_before(
                    weights@,
                    next as int,
                    #[trigger] b@[q] as int,
                ) by {
                    if q > j0 {
                        assert(ranks_before(weights@, b@[j0] as int, b@[q] as int));
                    }
                }
                assert forall|p: int| 0 <= p < before.len() implies ranks_before(
                    weights@,
                    #[trigger] before[p] as int,
                    next as int,
                ) by {
                    assert(ranks_before(weights@, before[p] as int, a@[i0] as int));
                }
            } else {
                assert forall|q: int| j <= q < b@.len() implies ranks_before(
                    weights@,
                    next as int,
                    #[trigger] b@[q] as int,
                ) by {
                    assert(ranks_before(weights@, b@[j0] as int, b@[q] as int));
                }
                assert forall|q: int| i <= q < a@.len() implies ranks_before(
                    weights@,
                    next as int,
                    #[trigger] a@[q] as int,
                ) by {
                    if q > i0 {
                        assert(ranks_before(weights@, a@[i0] as int, a@[q] as int));
                    }
                }
                assert forall|p: int| 0 <= p < before.len() implies ranks_before(
                    weights@,
                    #[trigger] before[p] as int,
                    next as int,
                ) by {
                    assert(ranks_before(weights@, before[p] as int, b@[j0] as int));
                }
            }
            assert forall|p: int, q: int| 0 <= p < q < out@.len() implies #[trigger] ranks_before(
                weights@,
                out@[p] as int,
                out@[q] as int,
            ) by {
                if q < before.len() {
                    assert(ranks_before(weights@, before[p] as int, before[q] as int));
                } else {
                    assert(before[p] == out@[p]);
                }
            }
            assert forall|p: int, q: int|
                0 <= p < out@.len() && i <= q < a@.len() implies #[trigger] ranks_before(
                weights@,
                out@[p] as int,
                a@[q] as int,
            ) by {
                if p < before.len() {
                    assert(ranks_before(weights@, before[p] as int, a@[q] as int));
                }
            }
            assert forall|p: int, q: int|
                0 <= p < out@.len() && j <= q < b@.len() implies #[trigger] ranks_before(
                weights@,
                out@[p] as int,
                b@[q] as int,
            ) by {
                if p < before.len() {
                    assert(ranks_before(weights@, before[p] as int, b@[q] as int));
                }
            }
        }
    }
    proof {
        assert forall|x: usize| lo <= x < hi implies #[trigger] out@.contains(x) by {
            if x < mid {
                assert(a@.contains(x));
                let k = choose|k: int| 0 <= k < a@.len() && a@[k] == x;
                assert(out@.contains(a@[k]));
            } else {
                assert(b@.contains(x));
                let k = choose|k: int| 0 <= k < b@.len() && b@[k] == x;
                assert(out@.contains(b@[k]));
            }
        }
    }
    out
}

fn rank_range(weights: &Vec<u64>, lo: usize, hi: usize) -> (out: Vec<usize>)
    requires
        lo <= hi <= weights@.len(),
    ensures
        ranks_range(out@, weights@, lo as int, hi as int),
    decreases hi - lo,
{
    if hi - lo == 0 {
        Vec::new()
    } else if hi - lo == 1 {
        let mut out: Vec<usize> = Vec::new();
        out.push(lo);
        assert(out@[0] == lo);
        out
    } else {
        let mid: usize = lo + (hi - lo) / 2;
        let a = rank_range(weights, lo, mid);
        let b = rank_range(weights, mid, hi);
        merge_ranked(&a, &b, weights, Ghost(lo as int), Ghost(mid as int), Ghost(hi as int))
    }
}

/// Ranks the indices of `weights`.
pub fn rank(weights: &Vec<u64>) -> (out: Vec<usize>)
    ensures
        out@.len() == weights@.len(),
        ranked(weights@).len() == weights@.len(),
        forall|p: int| 0 <= p < out@.len() ==> #[trigger] out@[p] == ranked(weights@)[p],
        forall|p: int| 0 <= p < out@.len() ==> #[trigger] out@[p] < weights@.len(),
{
    let out = rank_range(weights, 0, weights.len());
    proof {
        let order = as_ints(out@);
        lemma_ranked(weights@);
        assert forall|p: int, q: int| 0 <= p < q < order.len() implies #[trigger] ranks_before(
            weights@,
            order[p],
            order[q],
        ) by {
            assert(ranks_before(weights@, out@[p] as int, out@[q] as int));
        }
        assert forall|i: int| order.contains(i) <==> 0 <= i < weights@.len() by {
            if 0 <= i < weights@.len() {
                assert(out@.contains(i as usize));
                let k = choose|k: int| 0 <= k < out@.len() && out@[k] == i as usize;
                assert(order[k] == i);
            }
            if order.contains(i) {
                let k = choose|k: int| 0 <= k < order.len() && order[k] == i;
                assert(0 <= out@[k] < weights@.len());
            }
        }
        assert(is_ranking(order, weights@));
    }
    out
}

} // verus!
