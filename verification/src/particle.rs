//! A particle on the grid: its random walk and its distance test.

use vstd::prelude::*;

verus! {

/// Side of the square enclosure, in units of length.
pub const ENCLOSURE_SIZE: i64 = 10;

/// Grid steps in one unit of length: 2 to the power 23.
pub const UNIT: i64 = 8388608;

/// Largest coordinate inside the enclosure, in grid steps.
pub const MAX_COORD: i64 = (ENCLOSURE_SIZE - 1) * UNIT;

/// A point of the grid. Both coordinates are in grid steps.
#[derive(Debug, Copy, Clone, PartialEq, Eq, Structural)]
pub struct Particle {
    pub x: i64,
    pub y: i64,
}

/// `v`, brought into `[lo, hi]`.
pub open spec fn clamped(v: int, lo: int, hi: int) -> int {
    if v < lo {
        lo
    } else if v > hi {
        hi
    } else {
        v
    }
}

/// The coordinate that a walk step of `d` grid steps leads to from `c`: the
/// step is cut to one unit of length either way, the sum to the enclosure.
pub open spec fn moved_coord(c: int, d: int) -> int {
    clamped(c + clamped(d, -(UNIT as int), UNIT as int), 0, MAX_COORD as int)
}

/// The particle that a walk step of `(dx, dy)` leads to from `p`.
pub open spec fn moved(p: Particle, dx: int, dy: int) -> Particle {
    Particle { x: moved_coord(p.x as int, dx) as i64, y: moved_coord(p.y as int, dy) as i64 }
}

/// The walk step that a uniform 32-bit sample stands for: its upper 24 bits,
/// re-centred, so that the steps are spread evenly from `-UNIT` up to, but not
/// reaching, `UNIT`.
pub open spec fn sample_delta(sample: u32) -> int {
    (sample as int) / 256 - (UNIT as int)
}

/// `q` is where one walk step can lead from `p`.
pub open spec fn one_step(p: Particle, q: Particle) -> bool {
    exists|a: u32, b: u32| q == #[trigger] moved(p, sample_delta(a), sample_delta(b))
}

/// The square of the distance between `a` and `b`, in grid steps squared.
pub open spec fn dist_sq(a: Particle, b: Particle) -> int {
    (a.x - b.x) * (a.x - b.x) + (a.y - b.y) * (a.y - b.y)
}

/// `a` and `b` are less than one unit of length apart.
pub open spec fn collides(a: Particle, b: Particle) -> bool {
    dist_sq(a, b) < (UNIT as int) * (UNIT as int)
}

/// A uniform 32-bit sample from `rand::random`, drawn from the thread's
/// generator. Nothing is claimed of the value.
#[verifier::external_body]
fn random_sample() -> u32 {
    rand::random::<u32>()
}

/// The walk step that `sample` stands for.
pub fn delta_from_sample(sample: u32) -> (d: i64)
    ensures
        d == sample_delta(sample),
        -UNIT <= d < UNIT,
{
    let top: u32 = sample >> 8;
    assert(top == sample / 256 && top < 16777216) by (bit_vector)
        requires
            top == sample >> 8,
    ;
    top as i64 - UNIT
}

/// One coordinate after a walk step of `d`.
fn step_coord(c: i64, d: i64) -> (r: i64)
    ensures
        r == moved_coord(c as int, d as int),
        0 <= r <= MAX_COORD,
{
    let cut: i64 = if d < -UNIT {
        -UNIT
    } else if d > UNIT {
        UNIT
    } else {
        d
    };
    if c > MAX_COORD + UNIT {
        MAX_COORD
    } else if c < -UNIT {
        0
    } else {
        let sum: i64 = c + cut;
        if sum < 0 {
            0
        } else if sum > MAX_COORD {
            MAX_COORD
        } else {
            sum
        }
    }
}

impl Particle {
    /// The particle is inside the enclosure.
    pub open spec fn in_enclosure(&self) -> bool {
        0 <= self.x <= MAX_COORD && 0 <= self.y <= MAX_COORD
    }

    /// A particle at `(x_param, y_param)`, in grid steps. Any point is
    /// accepted; the first walk step brings an outside point to the
    /// enclosure's edge.
    pub fn new(x_param: i64, y_param: i64) -> (p: Particle)
        ensures
            p == (Particle { x: x_param, y: y_param }),
    {
        Particle { x: x_param, y: y_param }
    }

    /// Takes the walk step `(dx, dy)`: each delta is cut to one unit of length
    /// either way and added, and the sum is cut to the enclosure.
    pub fn move_by(&mut self, dx: i64, dy: i64)
        ensures
            *final(self) == moved(*old(self), dx as int, dy as int),
            final(self).in_enclosure(),
    {
        self.x = step_coord(self.x, dx);
        self.y = step_coord(self.y, dy);
    }

    /// Takes one random walk step: two samples are drawn, one for each axis.
    /// Whatever is drawn, the particle ends inside the enclosure, one step
    /// away from where it was.
    pub fn move_randomly(&mut self)
        ensures
            one_step(*old(self), *final(self)),
            final(self).in_enclosure(),
    {
        let a: u32 = random_sample();
        let b: u32 = random_sample();
        let dx: i64 = delta_from_sample(a);
        let dy: i64 = delta_from_sample(b);
        self.move_by(dx, dy);
    }

    /// Whether `other` is less than one unit of length away.
    pub fn collide(&self, other: &Particle) -> (hit: bool)
        ensures
            hit == collides(*self, *other),
    {
        let dx: i128 = self.x as i128 - other.x as i128;
        let dy: i128 = self.y as i128 - other.y as i128;
        let unit: i128 = UNIT as i128;
        if dx >= unit || dx <= -unit || dy >= unit || dy <= -unit {
            proof {
                lemma_far_apart(dx as int, dy as int);
            }
            false
        } else {
            proof {
                lemma_square_bound(dx as int);
                lemma_square_bound(dy as int);
            }
            dx * dx + dy * dy < unit * unit
        }
    }
}

/// The distance test does not depend on which of the two particles asks.
pub proof fn lemma_collide_symmetric(a: Particle, b: Particle)
    ensures
        collides(a, b) == collides(b, a),
{
    let dx: int = a.x - b.x;
    let dy: int = a.y - b.y;
    assert(dx * dx == (-dx) * (-dx)) by (nonlinear_arith);
    assert(dy * dy == (-dy) * (-dy)) by (nonlinear_arith);
    assert(b.x - a.x == -dx && b.y - a.y == -dy);
}

/// Two particles at the same point are close: their distance is zero.
pub proof fn lemma_collide_same_point(a: Particle, b: Particle)
    requires
        a.x == b.x,
        a.y == b.y,
    ensures
        collides(a, b),
{
    assert((UNIT as int) * (UNIT as int) > 0) by (nonlinear_arith);
}

/// A pair that is a unit or more apart along one axis is a unit or more apart.
proof fn lemma_far_apart(dx: int, dy: int)
    requires
        dx >= UNIT || dx <= -UNIT || dy >= UNIT || dy <= -UNIT,
    ensures
        dx * dx + dy * dy >= (UNIT as int) * (UNIT as int),
{
    let u: int = UNIT as int;
    assert(dx * dx >= 0 && dy * dy >= 0) by (nonlinear_arith);
    assert((dx >= u || dx <= -u) ==> dx * dx >= u * u) by (nonlinear_arith)
        requires
            u >= 0,
    ;
    assert((dy >= u || dy <= -u) ==> dy * dy >= u * u) by (nonlinear_arith)
        requires
            u >= 0,
    ;
}

/// The square of a difference under one unit stays under the unit's square.
proof fn lemma_square_bound(d: int)
    requires
        -UNIT < d < UNIT,
    ensures
        0 <= d * d < (UNIT as int) * (UNIT as int),
        (UNIT as int) * (UNIT as int) == 70368744177664,
{
    let u: int = UNIT as int;
    assert(0 <= d * d < u * u) by (nonlinear_arith)
        requires
            -u < d < u,
    ;
    assert(8388608int * 8388608int == 70368744177664int) by (nonlinear_arith);
}

} // verus!
