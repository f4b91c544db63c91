//! The particle store with its collision counter, and a run over them.
//!
//! A worker holds the whole store for the length of its pass, so the workers
//! of a phase take their passes one after the other, and a phase is over
//! before the next one starts. `move_phase` and `collision_phase` make the
//! passes in that way on the calling thread. A caller with a pool of threads
//! hands `move_pass` and `collision_pass` to its workers under a lock of its
//! own, and adds what each pass found to a counter that its workers share.

use vstd::prelude::*;
use std::time::{Duration, Instant};
use crate::driver::{driver_step, DriverAction, DriverState};
use crate::particle::Particle;
use crate::scan::{chunked_collisions, close_pairs_in_chunks, count_in_chunks};
use crate::walk::{
    all_inside, all_stepped, all_walked, lemma_all_walked_extend, lemma_all_walked_inside,
    lemma_all_walked_join, move_in_chunks,
};

verus! {

/// The most particles that a store holds.
pub const NUM_OF_PARTICLES: usize = 100;

/// The workers of each phase.
pub const NUM_OF_THREADS: usize = 4;

/// The particles in one chunk.
pub const NUM_OF_CHUNKS: usize = 5;

/// A point in time, as `std::time::Instant` has it.
#[verifier::external_type_specification]
#[verifier::external_body]
pub struct ExInstant(std::time::Instant);

/// The present moment, from `Instant::now`. Nothing is claimed of it.
#[verifier::external_body]
fn clock_now() -> Instant {
    Instant::now()
}

/// The time that has passed since `start`, from `Instant::elapsed`. Nothing
/// is claimed of it.
#[verifier::external_body]
fn clock_elapsed(start: &Instant) -> Duration {
    start.elapsed()
}

/// The whole seconds in `span`, from `Duration::as_secs`. Nothing is claimed
/// of the number.
#[verifier::external_body]
fn whole_seconds(span: &Duration) -> u64 {
    span.as_secs()
}

/// The store's contents after an attempt to add `particle`: it is appended
/// while the store is under its capacity, and turned away once it is full.
pub open spec fn after_add(store: Seq<Particle>, particle: Particle) -> Seq<Particle> {
    if store.len() < NUM_OF_PARTICLES {
        store.push(particle)
    } else {
        store
    }
}

/// The store's contents after attempts to add each of `items` in turn.
pub open spec fn after_adds(store: Seq<Particle>, items: Seq<Particle>) -> Seq<Particle>
    decreases items.len(),
{
    if items.len() == 0 {
        store
    } else {
        after_add(after_adds(store, items.drop_last()), items.last())
    }
}

/// No run of additions brings a store over its capacity.
pub proof fn lemma_adds_keep_capacity(store: Seq<Particle>, items: Seq<Particle>)
    requires
        store.len() <= NUM_OF_PARTICLES,
    ensures
        after_adds(store, items).len() <= NUM_OF_PARTICLES,
    decreases items.len(),
{
    if items.len() > 0 {
        lemma_adds_keep_capacity(store, items.drop_last());
    }
}

/// The counter after `n` is added to it. Past the largest number that the
/// machine holds it starts again from zero, as an atomic add does.
pub open spec fn counter_after(counter: usize, n: usize) -> usize {
    if counter + n > usize::MAX {
        (counter + n - usize::MAX - 1) as usize
    } else {
        (counter + n) as usize
    }
}

/// The counter after each of `workers` workers has added `n` to it.
pub open spec fn counter_after_workers(counter: usize, n: usize, workers: nat) -> usize
    decreases workers,
{
    if workers == 0 {
        counter
    } else {
        counter_after(counter_after_workers(counter, n, (workers - 1) as nat), n)
    }
}

/// The counter after each number of `adds` has been added to it in turn.
pub open spec fn counter_after_all(counter: usize, adds: Seq<usize>) -> usize
    decreases adds.len(),
{
    if adds.len() == 0 {
        counter
    } else {
        counter_after(counter_after_all(counter, adds.drop_last()), adds.last())
    }
}

/// The sum of `adds`.
pub open spec fn sum_of(adds: Seq<usize>) -> nat
    decreases adds.len(),
{
    if adds.len() == 0 {
        0
    } else {
        sum_of(adds.drop_last()) + adds.last() as nat
    }
}

/// While the counter stays within what the machine holds, it stands at what
/// it started from and all that was added since.
pub proof fn lemma_counter_is_sum(counter: usize, adds: Seq<usize>)
    requires
        counter + sum_of(adds) <= usize::MAX,
    ensures
        counter_after_all(counter, adds) == counter + sum_of(adds),
    decreases adds.len(),
{
    if adds.len() > 0 {
        lemma_counter_is_sum(counter, adds.drop_last());
    }
}

/// The sum of the first `n` of `adds` is no more than the sum of them all.
pub proof fn lemma_sum_of_prefix(adds: Seq<usize>, n: int)
    requires
        0 <= n <= adds.len(),
    ensures
        sum_of(adds.take(n)) <= sum_of(adds),
    decreases adds.len(),
{
    if n == adds.len() {
        assert(adds.take(n) =~= adds);
    } else {
        lemma_sum_of_prefix(adds.drop_last(), n);
        assert(adds.drop_last().take(n) =~= adds.take(n));
    }
}

/// The counter only grows: while it stays within what the machine holds,
/// what it stood at after the first `earlier` adds is no more than what it
/// stands at after them all.
pub proof fn lemma_counter_never_falls(counter: usize, adds: Seq<usize>, earlier: int)
    requires
        0 <= earlier <= adds.len(),
        counter + sum_of(adds) <= usize::MAX,
    ensures
        counter_after_all(counter, adds.take(earlier)) <= counter_after_all(counter, adds),
{
    lemma_sum_of_prefix(adds, earlier);
    lemma_counter_is_sum(counter, adds.take(earlier));
    lemma_counter_is_sum(counter, adds);
}

/// A phase adds to the counter as any run of adds does: `workers` times the
/// same number.
pub proof fn lemma_workers_are_adds(counter: usize, n: usize, workers: nat)
    ensures
        counter_after_workers(counter, n, workers) == counter_after_all(
            counter,
            Seq::new(workers, |i: int| n),
        ),
    decreases workers,
{
    let adds = Seq::new(workers, |i: int| n);
    if workers > 0 {
        lemma_workers_are_adds(counter, n, (workers - 1) as nat);
        assert(adds.drop_last() =~= Seq::new((workers - 1) as nat, |i: int| n));
    }
}

/// One tick leads from `before` and `counter` to `after` and `counter_then`:
/// every particle has walked one step for each worker, and each worker has
/// added the close pairs that the chunks of `after` hold.
pub open spec fn ticked(
    before: Seq<Particle>,
    counter: usize,
    after: Seq<Particle>,
    counter_then: usize,
) -> bool {
    &&& all_walked(before, after, NUM_OF_THREADS as nat)
    &&& counter_then == counter_after_workers(
        counter,
        chunked_collisions(after, NUM_OF_CHUNKS as int) as usize,
        NUM_OF_THREADS as nat,
    )
}

/// `ticks` ticks, one after the other, lead from `before` and `counter` to
/// `after` and `counter_then`.
pub open spec fn ran(
    before: Seq<Particle>,
    counter: usize,
    after: Seq<Particle>,
    counter_then: usize,
    ticks: nat,
) -> bool
    decreases ticks,
{
    if ticks == 0 {
        before == after && counter == counter_then
    } else {
        exists|mid: Seq<Particle>, mid_counter: usize|
            ran(before, counter, mid, mid_counter, (ticks - 1) as nat) && #[trigger] ticked(
                mid,
                mid_counter,
                after,
                counter_then,
            )
    }
}

/// A run of `ticks` ticks followed by one more tick is a run of `ticks + 1`
/// ticks.
pub proof fn lemma_ran_extend(
    before: Seq<Particle>,
    counter: usize,
    mid: Seq<Particle>,
    mid_counter: usize,
    after: Seq<Particle>,
    counter_then: usize,
    ticks: nat,
)
    requires
        ran(before, counter, mid, mid_counter, ticks),
        ticked(mid, mid_counter, after, counter_then),
    ensures
        ran(before, counter, after, counter_then, ticks + 1),
{
    let next: nat = ticks + 1;
    assert((next - 1) as nat == ticks);
    assert(ran(before, counter, mid, mid_counter, (next - 1) as nat) && ticked(
        mid,
        mid_counter,
        after,
        counter_then,
    ));
}

/// Adding `first` and then `second` is adding the two runs of numbers one
/// after the other.
pub proof fn lemma_adds_join(counter: usize, first: Seq<usize>, second: Seq<usize>)
    ensures
        counter_after_all(counter_after_all(counter, first), second) == counter_after_all(
            counter,
            first + second,
        ),
    decreases second.len(),
{
    if second.len() == 0 {
        assert(first + second =~= first);
    } else {
        lemma_adds_join(counter, first, second.drop_last());
        assert((first + second).drop_last() =~= first + second.drop_last());
        assert((first + second).last() == second.last());
    }
}

/// Over a run the counter changes by adds alone, one for each worker of each
/// tick: nothing lowers it and nothing sets it back.
pub proof fn lemma_run_is_adds(
    before: Seq<Particle>,
    counter: usize,
    after: Seq<Particle>,
    counter_then: usize,
    ticks: nat,
)
    requires
        ran(before, counter, after, counter_then, ticks),
    ensures
        exists|adds: Seq<usize>|
            adds.len() == ticks * NUM_OF_THREADS && counter_then == #[trigger] counter_after_all(
                counter,
                adds,
            ),
    decreases ticks,
{
    if ticks == 0 {
        let none = Seq::<usize>::empty();
        assert(none.len() == ticks * NUM_OF_THREADS && counter_then == counter_after_all(
            counter,
            none,
        ));
    } else {
        let (mid, mid_counter) = choose|mid: Seq<Particle>, mid_counter: usize|
            ran(before, counter, mid, mid_counter, (ticks - 1) as nat) && #[trigger] ticked(
                mid,
                mid_counter,
                after,
                counter_then,
            );
        lemma_run_is_adds(before, counter, mid, mid_counter, (ticks - 1) as nat);
        let first = choose|adds: Seq<usize>|
            adds.len() == (ticks - 1) * NUM_OF_THREADS && mid_counter
                == #[trigger] counter_after_all(counter, adds);
        let found: usize = chunked_collisions(after, NUM_OF_CHUNKS as int) as usize;
        let second = Seq::new(NUM_OF_THREADS as nat, |i: int| found);
        lemma_workers_are_adds(mid_counter, found, NUM_OF_THREADS as nat);
        lemma_adds_join(counter, first, second);
        let adds = first + second;
        assert(adds.len() == ticks * NUM_OF_THREADS && counter_then == counter_after_all(
            counter,
            adds,
        ));
    }
}

/// While the counter stays within what the machine holds, a phase never
/// lowers it: after `workers` adds of `n` it stands `workers * n` higher.
pub proof fn lemma_counter_grows(counter: usize, n: usize, workers: nat)
    requires
        counter + workers * n <= usize::MAX,
    ensures
        counter_after_workers(counter, n, workers) == counter + workers * n,
        counter_after_workers(counter, n, workers) >= counter,
    decreases workers,
{
    if workers > 0 {
        assert(workers * n == (workers - 1) * n + n) by (nonlinear_arith);
        assert((workers - 1) * n >= 0) by (nonlinear_arith)
            requires
                workers >= 1,
        ;
        lemma_counter_grows(counter, n, (workers - 1) as nat);
    } else {
        assert(workers * n == 0) by (nonlinear_arith)
            requires
                workers == 0,
        ;
    }
}

/// The store of particles, in the order in which they were added, and the
/// counter of the collisions found so far.
pub struct ParticleSystem {
    particles: Vec<Particle>,
    total_collisions: usize,
}

impl ParticleSystem {
    /// The particles in the store, in order.
    pub closed spec fn particles(&self) -> Seq<Particle> {
        self.particles@
    }

    /// What the collision counter stands at.
    pub closed spec fn collisions(&self) -> usize {
        self.total_collisions
    }

    /// The store holds no more particles than its capacity.
    pub open spec fn wf(&self) -> bool {
        self.particles().len() <= NUM_OF_PARTICLES
    }

    /// An empty store with its counter at zero.
    pub fn new() -> (system: ParticleSystem)
        ensures
            system.wf(),
            system.particles() == Seq::<Particle>::empty(),
            system.collisions() == 0,
    {
        ParticleSystem { particles: Vec::new(), total_collisions: 0 }
    }

    /// Appends `particle` while the store is under its capacity, and says
    /// whether it did. A full store is left as it is.
    pub fn add_particle(&mut self, particle: Particle) -> (added: bool)
        requires
            old(self).wf(),
        ensures
            final(self).wf(),
            added == (old(self).particles().len() < NUM_OF_PARTICLES),
            final(self).particles() == after_add(old(self).particles(), particle),
            final(self).collisions() == old(self).collisions(),
    {
        if self.particles.len() < NUM_OF_PARTICLES {
            self.particles.push(particle);
            true
        } else {
            false
        }
    }

    /// How many particles the store holds.
    pub fn len(&self) -> (n: usize)
        ensures
            n == self.particles().len(),
    {
        self.particles.len()
    }

    /// The particle at position `index`, if there is one.
    pub fn particle(&self, index: usize) -> (found: Option<Particle>)
        ensures
            found == if index < self.particles().len() {
                Some(self.particles()[index as int])
            } else {
                None
            },
    {
        if index < self.particles.len() {
            Some(self.particles[index])
        } else {
            None
        }
    }

    /// Reads the collision counter.
    pub fn total_collisions(&self) -> (n: usize)
        ensures
            n == self.collisions(),
    {
        self.total_collisions
    }

    /// Adds `n` to the collision counter. Nothing lowers or resets it.
    pub fn record_collisions(&mut self, n: usize)
        ensures
            final(self).collisions() == counter_after(old(self).collisions(), n),
            final(self).particles() == old(self).particles(),
    {
        self.total_collisions = self.total_collisions.wrapping_add(n);
    }

    /// One worker's pass of the move phase: every particle of every chunk
    /// takes one random walk step.
    pub fn move_pass(&mut self, thread_id: usize)
        ensures
            all_stepped(old(self).particles(), final(self).particles()),
            all_inside(final(self).particles()),
            final(self).collisions() == old(self).collisions(),
    {
        move_in_chunks(self.particles.as_mut_slice(), NUM_OF_CHUNKS, thread_id);
    }

    /// One worker's pass of the collision phase: the close pairs inside each
    /// chunk, added up over the chunks. The counter is not touched.
    pub fn collision_pass(&self, thread_id: usize) -> (found: usize)
        requires
            self.wf(),
        ensures
            found == chunked_collisions(self.particles(), NUM_OF_CHUNKS as int),
            found == close_pairs_in_chunks(self.particles(), NUM_OF_CHUNKS as int).len(),
    {
        assert(self.particles@.len() * self.particles@.len() <= usize::MAX) by (nonlinear_arith)
            requires
                self.particles@.len() <= 100,
                usize::MAX >= 0xffff_ffff,
        ;
        count_in_chunks(self.particles.as_slice(), NUM_OF_CHUNKS, thread_id)
    }

    /// The move phase: each of the workers in turn makes its pass over the
    /// whole store, so every particle takes as many walk steps as there are
    /// workers.
    pub fn move_phase(&mut self)
        ensures
            all_walked(old(self).particles(), final(self).particles(), NUM_OF_THREADS as nat),
            all_inside(final(self).particles()),
            final(self).collisions() == old(self).collisions(),
    {
        let mut worker: usize = 0;
        while worker < NUM_OF_THREADS
            invariant
                worker <= NUM_OF_THREADS,
                all_walked(old(self).particles(), self.particles(), worker as nat),
                self.collisions() == old(self).collisions(),
            decreases NUM_OF_THREADS - worker,
        {
            let ghost mid = self.particles();
            self.move_pass(worker);
            proof {
                lemma_all_walked_extend(
                    old(self).particles(),
                    mid,
                    self.particles(),
                    worker as nat,
                );
            }
            worker += 1;
        }
        proof {
            lemma_all_walked_inside(
                old(self).particles(),
                self.particles(),
                NUM_OF_THREADS as nat,
            );
        }
    }

    /// The collision phase: each of the workers in turn scans the whole
    /// store chunk by chunk and adds what it found to the counter, once. The
    /// particles stay where they are.
    pub fn collision_phase(&mut self)
        requires
            old(self).wf(),
        ensures
            final(self).particles() == old(self).particles(),
            final(self).collisions() == counter_after_workers(
                old(self).collisions(),
                chunked_collisions(old(self).particles(), NUM_OF_CHUNKS as int) as usize,
                NUM_OF_THREADS as nat,
            ),
    {
        let mut worker: usize = 0;
        while worker < NUM_OF_THREADS
            invariant
                worker <= NUM_OF_THREADS,
                self.wf(),
                self.particles() == old(self).particles(),
                self.collisions() == counter_after_workers(
                    old(self).collisions(),
                    chunked_collisions(old(self).particles(), NUM_OF_CHUNKS as int) as usize,
                    worker as nat,
                ),
            decreases NUM_OF_THREADS - worker,
        {
            let found: usize = self.collision_pass(worker);
            self.record_collisions(found);
            worker += 1;
        }
    }

    /// One tick: the move phase, and when it is complete the collision phase
    /// on the particles where they then are.
    pub fn tick(&mut self)
        requires
            old(self).wf(),
        ensures
            final(self).wf(),
            ticked(
                old(self).particles(),
                old(self).collisions(),
                final(self).particles(),
                final(self).collisions(),
            ),
            all_inside(final(self).particles()),
    {
        self.move_phase();
        self.collision_phase();
    }

    /// Runs ticks until `budget_secs` seconds have passed, and returns the
    /// number of ticks and what the counter then stands at. The clock is
    /// read when a tick is complete, never before the first one and never
    /// inside one, so at least one tick runs and the last one may end after
    /// the deadline.
    pub fn simulate_particles(&mut self, budget_secs: u64) -> (report: (usize, usize))
        requires
            old(self).wf(),
        ensures
            final(self).wf(),
            ran(
                old(self).particles(),
                old(self).collisions(),
                final(self).particles(),
                final(self).collisions(),
                report.0 as nat,
            ),
            all_walked(
                old(self).particles(),
                final(self).particles(),
                (report.0 * NUM_OF_THREADS) as nat,
            ),
            all_inside(final(self).particles()),
            report.0 >= 1,
            report.1 == final(self).collisions(),
    {
        let start: Instant = clock_now();
        let mut state: DriverState = driver_step(DriverState::NotStarted, 0, budget_secs).0;
        let mut ticks: usize = 0;
        let mut running: bool = true;
        while running
            invariant
                self.wf(),
                ran(
                    old(self).particles(),
                    old(self).collisions(),
                    self.particles(),
                    self.collisions(),
                    ticks as nat,
                ),
                all_walked(
                    old(self).particles(),
                    self.particles(),
                    (ticks * NUM_OF_THREADS) as nat,
                ),
                running ==> state == (DriverState::Running { ticks }) && ticks < usize::MAX,
                !running ==> ticks >= 1 && all_inside(self.particles()),
            decreases usize::MAX - ticks + if running { 1int } else { 0int },
        {
            let ghost mid = self.particles();
            let ghost mid_counter = self.collisions();
            self.tick();
            proof {
                lemma_ran_extend(
                    old(self).particles(),
                    old(self).collisions(),
                    mid,
                    mid_counter,
                    self.particles(),
                    self.collisions(),
                    ticks as nat,
                );
                lemma_all_walked_join(
                    old(self).particles(),
                    mid,
                    self.particles(),
                    (ticks * NUM_OF_THREADS) as nat,
                    NUM_OF_THREADS as nat,
                );
            }
            let span: Duration = clock_elapsed(&start);
            let elapsed_secs: u64 = whole_seconds(&span);
            let next: (DriverState, DriverAction) = driver_step(state, elapsed_secs, budget_secs);
            state = next.0;
            match next.1 {
                DriverAction::RunTick => {
                    ticks = ticks + 1;
                },
                DriverAction::Report { ticks: done } => {
                    ticks = done;
                    running = false;
                },
            }
        }
        (ticks, self.total_collisions())
    }
}

} // verus!
