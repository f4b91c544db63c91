use colliding_particles::particle::{delta_from_sample, Particle, ENCLOSURE_SIZE, MAX_COORD, UNIT};

#[test]
fn constants_agree() {
    assert_eq!(ENCLOSURE_SIZE, 10);
    assert_eq!(UNIT, 1 << 23);
    assert_eq!(MAX_COORD, 9 * UNIT);
}

#[test]
fn new_keeps_the_coordinates() {
    let p = Particle::new(5 * UNIT, 7 * UNIT);
    assert_eq!(p.x, 5 * UNIT);
    assert_eq!(p.y, 7 * UNIT);
    let q = Particle::new(-3, i64::MAX);
    assert_eq!(q, Particle { x: -3, y: i64::MAX });
}

#[test]
fn sample_zero_is_a_full_step_back() {
    assert_eq!(delta_from_sample(0), -UNIT);
    assert_eq!(delta_from_sample(255), -UNIT);
    assert_eq!(delta_from_sample(256), -UNIT + 1);
}

#[test]
fn sample_in_the_middle_is_no_step() {
    assert_eq!(delta_from_sample(0x8000_0000), 0);
    assert_eq!(delta_from_sample(0x4000_0000), -UNIT / 2);
    assert_eq!(delta_from_sample(0xC000_0000), UNIT / 2);
}

#[test]
fn largest_sample_stays_under_a_full_step() {
    assert_eq!(delta_from_sample(u32::MAX), UNIT - 1);
}

#[test]
fn move_by_adds_the_deltas() {
    let mut p = Particle::new(5 * UNIT, 7 * UNIT);
    p.move_by(UNIT / 2, -UNIT / 4);
    assert_eq!(p, Particle::new(5 * UNIT + UNIT / 2, 7 * UNIT - UNIT / 4));
}

#[test]
fn move_by_clamps_at_the_upper_edge() {
    let mut p = Particle::new(9 * UNIT, 9 * UNIT);
    p.move_by(UNIT, UNIT);
    assert_eq!(p.x, 9 * UNIT);
    assert_eq!(p.y, 9 * UNIT);
    assert!(p.x < ENCLOSURE_SIZE * UNIT);
}

#[test]
fn move_by_clamps_at_the_lower_edge() {
    let mut p = Particle::new(UNIT / 2, 0);
    p.move_by(-UNIT, -1);
    assert_eq!(p, Particle::new(0, 0));
}

#[test]
fn move_by_cuts_a_long_step_to_one_unit() {
    let mut p = Particle::new(4 * UNIT, 4 * UNIT);
    p.move_by(3 * UNIT, -5 * UNIT);
    assert_eq!(p, Particle::new(5 * UNIT, 3 * UNIT));
    let mut q = Particle::new(4 * UNIT, 4 * UNIT);
    q.move_by(i64::MAX, i64::MIN);
    assert_eq!(q, Particle::new(5 * UNIT, 3 * UNIT));
}

#[test]
fn move_by_brings_a_far_point_to_the_edge() {
    let mut p = Particle::new(i64::MAX, i64::MIN);
    p.move_by(UNIT, -UNIT);
    assert_eq!(p, Particle::new(MAX_COORD, 0));
    let mut q = Particle::new(MAX_COORD + UNIT + 1, -UNIT - 1);
    q.move_by(-UNIT, UNIT);
    assert_eq!(q, Particle::new(MAX_COORD, 0));
    let mut r = Particle::new(MAX_COORD + UNIT, -UNIT);
    r.move_by(-UNIT, UNIT);
    assert_eq!(r, Particle::new(MAX_COORD, 0));
    let mut s = Particle::new(MAX_COORD + UNIT, -UNIT);
    s.move_by(-UNIT - 7, UNIT + 7);
    assert_eq!(s, Particle::new(MAX_COORD, 0));
}

#[test]
fn move_randomly_stays_inside_the_enclosure() {
    let mut p = Particle::new(5 * UNIT, 7 * UNIT);
    for _ in 0..2000 {
        let before = p;
        p.move_randomly();
        assert!(0 <= p.x && p.x <= MAX_COORD);
        assert!(0 <= p.y && p.y <= MAX_COORD);
        assert!((p.x - before.x).abs() <= UNIT);
        assert!((p.y - before.y).abs() <= UNIT);
    }
}

#[test]
fn move_randomly_brings_an_outside_point_in() {
    let mut p = Particle::new(1000 * UNIT, -1000 * UNIT);
    p.move_randomly();
    assert_eq!(p, Particle::new(MAX_COORD, 0));
    let mut q = Particle::new(i64::MIN, i64::MAX);
    q.move_randomly();
    assert_eq!(q, Particle::new(0, MAX_COORD));
}

#[test]
fn move_randomly_does_move() {
    let start = Particle::new(5 * UNIT, 5 * UNIT);
    let mut moved = false;
    for _ in 0..64 {
        let mut p = start;
        p.move_randomly();
        if p != start {
            moved = true;
        }
    }
    assert!(moved);
}

#[test]
fn collide_with_a_copy_is_true() {
    let a = Particle::new(5 * UNIT, 7 * UNIT);
    let b = a;
    assert!(a.collide(&b));
    assert!(a.collide(&a));
}

#[test]
fn collide_is_symmetric() {
    let points = [
        Particle::new(0, 0),
        Particle::new(UNIT - 1, 0),
        Particle::new(UNIT, 0),
        Particle::new(UNIT / 2, UNIT / 2),
        Particle::new(9 * UNIT, 9 * UNIT),
        Particle::new(i64::MAX, i64::MIN),
        Particle::new(-UNIT / 3, 2 * UNIT),
    ];
    for a in points.iter() {
        for b in points.iter() {
            assert_eq!(a.collide(b), b.collide(a));
        }
    }
}

#[test]
fn collide_is_strict_at_one_unit() {
    let origin = Particle::new(0, 0);
    assert!(!origin.collide(&Particle::new(UNIT, 0)));
    assert!(!origin.collide(&Particle::new(0, -UNIT)));
    assert!(origin.collide(&Particle::new(UNIT - 1, 0)));
    assert!(origin.collide(&Particle::new(0, 1 - UNIT)));
}

#[test]
fn collide_uses_both_axes() {
    let origin = Particle::new(0, 0);
    // 0.6 and 0.8 of a unit make exactly one unit; a step less is close.
    let x: i64 = 5033165;
    let y: i64 = 6710886;
    assert!(x * x + y * y < UNIT * UNIT);
    assert!(origin.collide(&Particle::new(x, y)));
    assert!(!origin.collide(&Particle::new(x + 1, y + 1)));
    assert!(!origin.collide(&Particle::new(UNIT - 1, UNIT - 1)));
    assert!(origin.collide(&Particle::new(UNIT / 2, UNIT / 2)));
}

#[test]
fn collide_far_apart_is_false() {
    let a = Particle::new(i64::MIN, i64::MIN);
    let b = Particle::new(i64::MAX, i64::MAX);
    assert!(!a.collide(&b));
    assert!(!Particle::new(0, 0).collide(&Particle::new(9 * UNIT, 9 * UNIT)));
    assert!(!Particle::new(0, i64::MAX).collide(&Particle::new(0, i64::MIN)));
}
