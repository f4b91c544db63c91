//! The random walk of a run of particles, chunk by chunk.

use vstd::prelude::*;
use crate::particle::{moved, one_step, sample_delta, Particle};

verus! {

/// `q` is where `steps` walk steps can lead from `p`.
pub open spec fn walked(p: Particle, q: Particle, steps: nat) -> bool
    decreases steps,
{
    if steps == 0 {
        p == q
    } else {
        exists|mid: Particle| walked(p, mid, (steps - 1) as nat) && #[trigger] one_step(mid, q)
    }
}

/// Every particle of `after` is where `steps` walk steps can lead from the
/// particle at the same position of `before`.
pub open spec fn all_walked(before: Seq<Particle>, after: Seq<Particle>, steps: nat) -> bool {
    &&& before.len() == after.len()
    &&& forall|i: int| 0 <= i < after.len() ==> walked(before[i], #[trigger] after[i], steps)
}

/// Every particle of `after` is where one walk step can lead from the
/// particle at the same position of `before`.
pub open spec fn all_stepped(before: Seq<Particle>, after: Seq<Particle>) -> bool {
    &&& before.len() == after.len()
    &&& forall|i: int| 0 <= i < after.len() ==> one_step(before[i], #[trigger] after[i])
}

/// Every particle of `s` is inside the enclosure.
pub open spec fn all_inside(s: Seq<Particle>) -> bool {
    forall|i: int| 0 <= i < s.len() ==> (#[trigger] s[i]).in_enclosure()
}

/// A walk step ends inside the enclosure, wherever it starts.
pub proof fn lemma_step_inside(p: Particle, q: Particle)
    requires
        one_step(p, q),
    ensures
        q.in_enclosure(),
{
    let (a, b) = choose|a: u32, b: u32| q == #[trigger] moved(p, sample_delta(a), sample_delta(b));
    assert(q == moved(p, sample_delta(a), sample_delta(b)));
}

/// A walk of `steps` steps followed by one more step is a walk of
/// `steps + 1` steps.
pub proof fn lemma_walk_extend(p: Particle, mid: Particle, q: Particle, steps: nat)
    requires
        walked(p, mid, steps),
        one_step(mid, q),
    ensures
        walked(p, q, steps + 1),
{
    let next: nat = steps + 1;
    assert((next - 1) as nat == steps);
    assert(walked(p, mid, (next - 1) as nat) && one_step(mid, q));
    assert(walked(p, q, next));
}

/// A walk of `a` steps followed by a walk of `b` steps is a walk of `a + b`
/// steps.
pub proof fn lemma_walk_join(p: Particle, q: Particle, r: Particle, a: nat, b: nat)
    requires
        walked(p, q, a),
        walked(q, r, b),
    ensures
        walked(p, r, a + b),
    decreases b,
{
    if b > 0 {
        let mid = choose|mid: Particle|
            walked(q, mid, (b - 1) as nat) && #[trigger] one_step(mid, r);
        lemma_walk_join(p, q, mid, a, (b - 1) as nat);
        lemma_walk_extend(p, mid, r, (a + b - 1) as nat);
    }
}

/// After any number of walk steps but none, a particle is inside the
/// enclosure, wherever it started.
pub proof fn lemma_walk_stays_inside(p: Particle, q: Particle, steps: nat)
    requires
        steps >= 1,
        walked(p, q, steps),
    ensures
        q.in_enclosure(),
{
    let mid = choose|mid: Particle|
        walked(p, mid, (steps - 1) as nat) && #[trigger] one_step(mid, q);
    lemma_step_inside(mid, q);
}

/// Moves each particle of `list` by one random walk step. `thread_id` names
/// the worker and changes nothing.
pub fn thread_main_move(list: &mut [Particle], thread_id: usize)
    ensures
        all_stepped(old(list)@, final(list)@),
        all_inside(final(list)@),
{
    let n: usize = list.len();
    let mut i: usize = 0;
    while i < n
        invariant
            i <= n,
            n == list@.len(),
            n == old(list)@.len(),
            forall|k: int|
                0 <= k < i ==> one_step(old(list)@[k], #[trigger] list@[k])
                    && list@[k].in_enclosure(),
            forall|k: int| i <= k < n ==> #[trigger] list@[k] == old(list)@[k],
        decreases n - i,
    {
        let mut particle: Particle = list[i];
        particle.move_randomly();
        list[i] = particle;
        i += 1;
    }
}

/// Cuts `list` into chunks of `chunk` particles, the last one shorter where
/// the length asks for it, and moves every particle of every chunk by one
/// random walk step: what one worker does in one pass.
pub fn move_in_chunks(list: &mut [Particle], chunk: usize, thread_id: usize)
    requires
        chunk > 0,
    ensures
        all_stepped(old(list)@, final(list)@),
        all_inside(final(list)@),
{
    let ghost before: Seq<Particle> = list@;
    let ghost after: Seq<Particle> = final(list)@;
    let ghost mut done: Seq<Particle> = Seq::empty();
    let mut rest: &mut [Particle] = list;
    while rest.len() > 0
        invariant
            chunk > 0,
            done.len() + rest@.len() == before.len(),
            rest@ == before.subrange(done.len() as int, before.len() as int),
            after == done + final(rest)@,
            all_stepped(before.subrange(0, done.len() as int), done),
            all_inside(done),
        decreases rest@.len(),
    {
        let take: usize = if rest.len() <= chunk {
            rest.len()
        } else {
            chunk
        };
        let (head, tail) = rest.split_at_mut(take);
        thread_main_move(head, thread_id);
        proof {
            done = done + head@;
        }
        rest = tail;
    }
}

/// One more pass over a run that has walked `steps` steps makes it a run that
/// has walked `steps + 1` steps.
pub proof fn lemma_all_walked_extend(
    before: Seq<Particle>,
    mid: Seq<Particle>,
    after: Seq<Particle>,
    steps: nat,
)
    requires
        all_walked(before, mid, steps),
        all_stepped(mid, after),
    ensures
        all_walked(before, after, steps + 1),
{
    assert forall|i: int| 0 <= i < after.len() implies walked(
        before[i],
        #[trigger] after[i],
        steps + 1,
    ) by {
        assert(walked(before[i], mid[i], steps));
        lemma_walk_extend(before[i], mid[i], after[i], steps);
    }
}

/// `a` passes over a run followed by `b` passes are `a + b` passes.
pub proof fn lemma_all_walked_join(
    before: Seq<Particle>,
    mid: Seq<Particle>,
    after: Seq<Particle>,
    a: nat,
    b: nat,
)
    requires
        all_walked(before, mid, a),
        all_walked(mid, after, b),
    ensures
        all_walked(before, after, a + b),
{
    assert forall|i: int| 0 <= i < after.len() implies walked(
        before[i],
        #[trigger] after[i],
        a + b,
    ) by {
        assert(walked(before[i], mid[i], a));
        lemma_walk_join(before[i], mid[i], after[i], a, b);
    }
}

/// After any number of passes but none, every particle of a run is inside
/// the enclosure, wherever it started.
pub proof fn lemma_all_walked_inside(before: Seq<Particle>, after: Seq<Particle>, steps: nat)
    requires
        steps >= 1,
        all_walked(before, after, steps),
    ensures
        all_inside(after),
{
    assert forall|i: int| 0 <= i < after.len() implies (#[trigger] after[i]).in_enclosure() by {
        lemma_walk_stays_inside(before[i], after[i], steps);
    }
}

} // verus!
