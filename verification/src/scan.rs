//! The pairwise scan: how many pairs of a run of particles are close, and
//! how many are when the run is cut into chunks that are scanned one by one.

use vstd::prelude::*;
use vstd::set_lib::lemma_set_disjoint_lens;
use vstd::slice::slice_subrange;
use crate::particle::{collides, Particle};

verus! {

/// The pairs of positions of `s`, the earlier one first, that hold close
/// particles. No position is paired with itself.
pub open spec fn close_pairs(s: Seq<Particle>) -> Set<(int, int)> {
    Set::new(|p: (int, int)| 0 <= p.0 < p.1 < s.len() && collides(s[p.0], s[p.1]))
}

/// The close pairs of `s` whose first position is `i` and whose second lies
/// in `[lo, hi)`.
pub open spec fn close_pairs_of(s: Seq<Particle>, i: int, lo: int, hi: int) -> Set<(int, int)> {
    Set::new(|p: (int, int)| p.0 == i && lo <= p.1 < hi && collides(s[i], s[p.1]))
}

/// The close pairs of `s` whose first position lies in `[from, upto)` and
/// whose second is under `end`.
pub open spec fn close_pairs_within(s: Seq<Particle>, from: int, upto: int, end: int) -> Set<
    (int, int),
> {
    Set::new(
        |p: (int, int)| from <= p.0 < upto && p.0 < p.1 < end && collides(s[p.0], s[p.1]),
    )
}

/// The close pairs of `s` from position `from` on that lie inside one chunk
/// when `s` is cut into chunks of `chunk` particles.
pub open spec fn close_pairs_in_chunks_from(s: Seq<Particle>, chunk: int, from: int) -> Set<
    (int, int),
> {
    Set::new(
        |p: (int, int)|
            from <= p.0 < p.1 < s.len() && p.0 / chunk == p.1 / chunk && collides(s[p.0], s[p.1]),
    )
}

/// The close pairs of `s` that lie inside one chunk when `s` is cut into
/// chunks of `chunk` particles: both positions have the same quotient by
/// `chunk`.
pub open spec fn close_pairs_in_chunks(s: Seq<Particle>, chunk: int) -> Set<(int, int)> {
    close_pairs_in_chunks_from(s, chunk, 0)
}

/// How many `j` in `[lo, hi)` have `s[j]` close to `s[i]`.
pub open spec fn hits_in(s: Seq<Particle>, i: int, lo: int, hi: int) -> nat
    decreases hi - lo,
{
    if hi <= lo {
        0
    } else {
        hits_in(s, i, lo, hi - 1) + if collides(s[i], s[hi - 1]) {
            1nat
        } else {
            0nat
        }
    }
}

/// How many pairs `(i, j)` with `i < n` and `i < j < s.len()` are close.
pub open spec fn pairs_upto(s: Seq<Particle>, n: int) -> nat
    decreases n,
{
    if n <= 0 {
        0
    } else {
        pairs_upto(s, n - 1) + hits_in(s, n - 1, n, s.len() as int)
    }
}

/// How many pairs of distinct positions of `s` hold close particles.
pub open spec fn pair_collisions(s: Seq<Particle>) -> nat {
    pairs_upto(s, s.len() as int)
}

/// How many close pairs are found when `s` is cut into chunks of `chunk`
/// particles, the last one shorter where the length asks for it, and only
/// pairs inside one chunk are looked at.
pub open spec fn chunked_collisions(s: Seq<Particle>, chunk: int) -> nat
    decreases s.len(),
{
    if chunk <= 0 || s.len() == 0 {
        0
    } else if s.len() <= chunk {
        pair_collisions(s)
    } else {
        pair_collisions(s.subrange(0, chunk)) + chunked_collisions(
            s.subrange(chunk, s.len() as int),
            chunk,
        )
    }
}

/// On the stretch of `s` from `a` up to `b`, `hits_in` counts the close
/// pairs of one position.
pub proof fn lemma_hits_are_close_pairs(
    s: Seq<Particle>,
    a: int,
    b: int,
    i: int,
    lo: int,
    hi: int,
)
    requires
        0 <= a <= b <= s.len(),
        0 <= i < b - a,
        0 <= lo <= hi <= b - a,
    ensures
        close_pairs_of(s, a + i, a + lo, a + hi).finite(),
        close_pairs_of(s, a + i, a + lo, a + hi).len() == hits_in(s.subrange(a, b), i, lo, hi),
    decreases hi - lo,
{
    let sub = s.subrange(a, b);
    let all = close_pairs_of(s, a + i, a + lo, a + hi);
    if hi == lo {
        assert(all =~= Set::<(int, int)>::empty());
    } else {
        lemma_hits_are_close_pairs(s, a, b, i, lo, hi - 1);
        let shorter = close_pairs_of(s, a + i, a + lo, a + hi - 1);
        assert(sub[i] == s[a + i] && sub[hi - 1] == s[a + hi - 1]);
        if collides(s[a + i], s[a + hi - 1]) {
            assert(all =~= shorter.insert((a + i, a + hi - 1)));
        } else {
            assert(all =~= shorter);
        }
    }
}

/// On the stretch of `s` from `a` up to `b`, `pairs_upto` counts the close
/// pairs of the first `n` positions.
pub proof fn lemma_pairs_are_close_pairs(s: Seq<Particle>, a: int, b: int, n: int)
    requires
        0 <= a <= b <= s.len(),
        0 <= n <= b - a,
    ensures
        close_pairs_within(s, a, a + n, b).finite(),
        close_pairs_within(s, a, a + n, b).len() == pairs_upto(s.subrange(a, b), n),
    decreases n,
{
    let all = close_pairs_within(s, a, a + n, b);
    if n == 0 {
        assert(all =~= Set::<(int, int)>::empty());
    } else {
        lemma_pairs_are_close_pairs(s, a, b, n - 1);
        lemma_hits_are_close_pairs(s, a, b, n - 1, n, b - a);
        let earlier = close_pairs_within(s, a, a + n - 1, b);
        let row = close_pairs_of(s, a + n - 1, a + n, b);
        assert(earlier.disjoint(row));
        lemma_set_disjoint_lens(earlier, row);
        assert(all =~= earlier + row);
    }
}

/// The scan's count is the number of close pairs: each pair of distinct
/// positions that holds close particles counts once, and nothing else does.
pub proof fn lemma_count_is_number_of_close_pairs(s: Seq<Particle>)
    ensures
        close_pairs(s).finite(),
        pair_collisions(s) == close_pairs(s).len(),
{
    lemma_pairs_are_close_pairs(s, 0, s.len() as int, s.len() as int);
    assert(s.subrange(0, s.len() as int) =~= s);
    assert(close_pairs(s) =~= close_pairs_within(s, 0, s.len() as int, s.len() as int));
}

/// The positions of chunk number `k` have the quotient `k` by the chunk's
/// size, and the positions past it a larger one.
proof fn lemma_quotients(chunk: int, k: int)
    requires
        chunk > 0,
        k >= 0,
    ensures
        forall|x: int| k * chunk <= x < (k + 1) * chunk ==> #[trigger] (x / chunk) == k,
        forall|x: int| x >= (k + 1) * chunk ==> #[trigger] (x / chunk) > k,
{
    assert forall|x: int| k * chunk <= x < (k + 1) * chunk implies #[trigger] (x / chunk)
        == k by {
        assert(x / chunk == k) by (nonlinear_arith)
            requires
                chunk > 0,
                k * chunk <= x < (k + 1) * chunk,
        ;
    }
    assert forall|x: int| x >= (k + 1) * chunk implies #[trigger] (x / chunk) > k by {
        assert(x / chunk > k) by (nonlinear_arith)
            requires
                chunk > 0,
                x >= (k + 1) * chunk,
        ;
    }
}

/// From chunk number `k` on, the chunked count is the number of close pairs
/// that lie inside one chunk.
pub proof fn lemma_chunks_from(s: Seq<Particle>, chunk: int, k: int)
    requires
        chunk > 0,
        k >= 0,
        k * chunk <= s.len(),
    ensures
        close_pairs_in_chunks_from(s, chunk, k * chunk).finite(),
        close_pairs_in_chunks_from(s, chunk, k * chunk).len() == chunked_collisions(
            s.subrange(k * chunk, s.len() as int),
            chunk,
        ),
    decreases s.len() - k * chunk,
{
    let len: int = s.len() as int;
    let a: int = k * chunk;
    let rest = s.subrange(a, len);
    let all = close_pairs_in_chunks_from(s, chunk, a);
    assert((k + 1) * chunk == a + chunk) by (nonlinear_arith)
        requires
            a == k * chunk,
    ;
    lemma_quotients(chunk, k);
    if a == len {
        assert(all =~= Set::<(int, int)>::empty());
    } else if len - a <= chunk {
        lemma_pairs_are_close_pairs(s, a, len, len - a);
        assert(all =~= close_pairs_within(s, a, len, len));
    } else {
        let b: int = a + chunk;
        lemma_chunks_from(s, chunk, k + 1);
        lemma_pairs_are_close_pairs(s, a, b, chunk);
        let first = close_pairs_within(s, a, b, b);
        let later = close_pairs_in_chunks_from(s, chunk, b);
        assert(rest.subrange(0, chunk) =~= s.subrange(a, b));
        assert(rest.subrange(chunk, rest.len() as int) =~= s.subrange(b, len));
        assert(first.disjoint(later));
        lemma_set_disjoint_lens(first, later);
        assert(all =~= first + later);
    }
}

/// The chunked count is the number of close pairs that lie inside one chunk:
/// a close pair whose positions fall into two chunks is never counted.
pub proof fn lemma_chunked_count_is_number_of_pairs_in_chunks(s: Seq<Particle>, chunk: int)
    requires
        chunk > 0,
    ensures
        close_pairs_in_chunks(s, chunk).finite(),
        chunked_collisions(s, chunk) == close_pairs_in_chunks(s, chunk).len(),
{
    assert(0 * chunk == 0) by (nonlinear_arith);
    lemma_chunks_from(s, chunk, 0);
    assert(s.subrange(0, s.len() as int) =~= s);
}

/// No more hits than positions looked at.
pub proof fn lemma_hits_bound(s: Seq<Particle>, i: int, lo: int, hi: int)
    requires
        lo <= hi,
    ensures
        hits_in(s, i, lo, hi) <= hi - lo,
    decreases hi - lo,
{
    if hi > lo {
        lemma_hits_bound(s, i, lo, hi - 1);
    }
}

/// The first `n` positions take part in at most `n * s.len()` pairs.
pub proof fn lemma_pairs_bound(s: Seq<Particle>, n: int)
    requires
        0 <= n <= s.len(),
    ensures
        pairs_upto(s, n) <= n * s.len(),
    decreases n,
{
    if n > 0 {
        lemma_pairs_bound(s, n - 1);
        lemma_hits_bound(s, n - 1, n, s.len() as int);
        assert((n - 1) * s.len() + s.len() == n * s.len()) by (nonlinear_arith);
    } else {
        assert(0 * s.len() == 0) by (nonlinear_arith);
    }
}

/// Scans every pair of distinct positions of `list` and counts the close
/// ones. No position is paired with itself. `thread_id` names the worker and
/// changes nothing.
pub fn thread_main_collisions(list: &[Particle], thread_id: usize) -> (count: usize)
    requires
        list@.len() * list@.len() <= usize::MAX,
    ensures
        count == pair_collisions(list@),
        count == close_pairs(list@).len(),
{
    proof {
        lemma_count_is_number_of_close_pairs(list@);
    }
    let n: usize = list.len();
    let mut count: usize = 0;
    let mut i: usize = 0;
    while i < n
        invariant
            i <= n,
            n == list@.len(),
            n * n <= usize::MAX,
            count == pairs_upto(list@, i as int),
        decreases n - i,
    {
        let ghost base: nat = count as nat;
        let mut j: usize = i + 1;
        while j < n
            invariant
                i < n,
                i + 1 <= j <= n,
                n == list@.len(),
                n * n <= usize::MAX,
                base == pairs_upto(list@, i as int),
                count == base + hits_in(list@, i as int, i + 1, j as int),
            decreases n - j,
        {
            if list[i].collide(&list[j]) {
                proof {
                    lemma_pairs_bound(list@, i as int);
                    lemma_hits_bound(list@, i as int, i + 1, j as int);
                    assert(i * n + n <= n * n) by (nonlinear_arith)
                        requires
                            i < n,
                    ;
                }
                count += 1;
            }
            j += 1;
        }
        i += 1;
    }
    count
}

/// Cuts `list` into chunks of `chunk` particles, scans each chunk by itself
/// and adds the counts up: what one worker finds in one pass. Pairs that lie
/// across two chunks are never looked at.
pub fn count_in_chunks(list: &[Particle], chunk: usize, thread_id: usize) -> (total: usize)
    requires
        chunk > 0,
        list@.len() * list@.len() <= usize::MAX,
    ensures
        total == chunked_collisions(list@, chunk as int),
        total == close_pairs_in_chunks(list@, chunk as int).len(),
{
    proof {
        lemma_chunked_count_is_number_of_pairs_in_chunks(list@, chunk as int);
    }
    let n: usize = list.len();
    let mut total: usize = 0;
    let mut start: usize = 0;
    proof {
        assert(list@.subrange(0, n as int) =~= list@);
    }
    while start < n
        invariant
            chunk > 0,
            start <= n,
            n == list@.len(),
            n * n <= usize::MAX,
            total <= start * n,
            total + chunked_collisions(list@.subrange(start as int, n as int), chunk as int)
                == chunked_collisions(list@, chunk as int),
        decreases n - start,
    {
        let end: usize = if n - start <= chunk {
            n
        } else {
            start + chunk
        };
        let part = slice_subrange(list, start, end);
        proof {
            let rest = list@.subrange(start as int, n as int);
            let len: int = end - start;
            assert(len * len <= n * n) by (nonlinear_arith)
                requires
                    0 <= len <= n,
            ;
            lemma_pairs_bound(part@, len);
            assert(start * n + len * len <= (start + len) * n) by (nonlinear_arith)
                requires
                    0 <= len,
                    start + len <= n,
            ;
            assert((start + len) * n <= n * n) by (nonlinear_arith)
                requires
                    start + len <= n,
            ;
            if end == n {
                assert(part@ =~= rest);
                assert(list@.subrange(end as int, n as int).len() == 0);
            } else {
                assert(part@ =~= rest.subrange(0, chunk as int));
                assert(list@.subrange(end as int, n as int) =~= rest.subrange(
                    chunk as int,
                    rest.len() as int,
                ));
            }
        }
        let found: usize = thread_main_collisions(part, thread_id);
        total = total + found;
        start = end;
    }
    proof {
        assert(list@.subrange(n as int, n as int).len() == 0);
    }
    total
}

} // verus!
