use colliding_particles::driver::{driver_step, DriverAction, DriverState};
use colliding_particles::particle::{Particle, MAX_COORD, UNIT};
use colliding_particles::system::{
    ParticleSystem, NUM_OF_CHUNKS, NUM_OF_PARTICLES, NUM_OF_THREADS,
};

fn at(x: i64, y: i64) -> Particle {
    Particle::new(x * UNIT, y * UNIT)
}

fn system_of(list: &[Particle]) -> ParticleSystem {
    let mut system = ParticleSystem::new();
    for p in list {
        assert!(system.add_particle(*p));
    }
    system
}

#[test]
fn tunables() {
    assert_eq!(NUM_OF_PARTICLES, 100);
    assert_eq!(NUM_OF_THREADS, 4);
    assert_eq!(NUM_OF_CHUNKS, 5);
}

#[test]
fn new_system_is_empty() {
    let system = ParticleSystem::new();
    assert_eq!(system.len(), 0);
    assert_eq!(system.total_collisions(), 0);
    assert_eq!(system.particle(0), None);
}

#[test]
fn add_particle_appends_in_order() {
    let mut system = ParticleSystem::new();
    assert!(system.add_particle(at(1, 2)));
    assert!(system.add_particle(at(3, 4)));
    assert_eq!(system.len(), 2);
    assert_eq!(system.particle(0), Some(at(1, 2)));
    assert_eq!(system.particle(1), Some(at(3, 4)));
    assert_eq!(system.particle(2), None);
    assert_eq!(system.total_collisions(), 0);
}

#[test]
fn add_beyond_capacity_is_turned_away() {
    let mut system = ParticleSystem::new();
    for i in 0..250 {
        let added = system.add_particle(at(i % 10, 0));
        assert_eq!(added, i < 100);
        assert!(system.len() <= 100);
    }
    assert_eq!(system.len(), 100);
    assert_eq!(system.particle(99), Some(at(9, 0)));
    assert_eq!(system.particle(100), None);
}

#[test]
fn one_worker_counts_a_coincident_pair_once() {
    let mut system = system_of(&[at(5, 7), at(5, 7)]);
    let before = system.total_collisions();
    let found = system.collision_pass(0);
    system.record_collisions(found);
    assert_eq!(found, 1);
    assert_eq!(system.total_collisions(), before + 1);
}

#[test]
fn one_worker_skips_the_far_particle() {
    let mut system = system_of(&[at(0, 0), at(0, 0), at(9, 9)]);
    let found = system.collision_pass(0);
    system.record_collisions(found);
    assert_eq!(system.total_collisions(), 1);
}

#[test]
fn collision_pass_scans_chunk_by_chunk() {
    let system = system_of(&vec![at(5, 7); 20]);
    assert_eq!(system.collision_pass(0), 40);
    let seven = system_of(&vec![at(5, 7); 7]);
    assert_eq!(seven.collision_pass(1), 11);
    let spread = system_of(&[at(0, 0), at(2, 0), at(4, 0), at(6, 0), at(8, 0), at(8, 0)]);
    assert_eq!(spread.collision_pass(0), 0);
}

#[test]
fn collision_phase_adds_once_for_each_worker() {
    let mut system = system_of(&[at(5, 7), at(5, 7)]);
    system.collision_phase();
    assert_eq!(system.total_collisions(), 4);
    system.collision_phase();
    assert_eq!(system.total_collisions(), 8);
    assert_eq!(system.particle(0), Some(at(5, 7)));
    assert_eq!(system.particle(1), Some(at(5, 7)));
}

#[test]
fn counter_only_grows() {
    let mut system = system_of(&vec![at(5, 7); 20]);
    let mut last = system.total_collisions();
    for _ in 0..50 {
        system.tick();
        let now = system.total_collisions();
        assert!(now >= last);
        assert_eq!((now - last) % NUM_OF_THREADS, 0);
        last = now;
    }
}

#[test]
fn record_collisions_adds() {
    let mut system = ParticleSystem::new();
    system.record_collisions(3);
    system.record_collisions(0);
    system.record_collisions(39);
    assert_eq!(system.total_collisions(), 42);
}

#[test]
fn record_collisions_starts_again_past_the_limit() {
    let mut system = ParticleSystem::new();
    system.record_collisions(usize::MAX);
    assert_eq!(system.total_collisions(), usize::MAX);
    system.record_collisions(3);
    assert_eq!(system.total_collisions(), 2);
}

#[test]
fn move_pass_keeps_the_store_inside() {
    let mut system = system_of(&[Particle::new(i64::MAX, i64::MIN), at(5, 7), at(0, 9)]);
    system.move_pass(0);
    assert_eq!(system.len(), 3);
    assert_eq!(system.particle(0), Some(Particle::new(MAX_COORD, 0)));
    let p = system.particle(1).unwrap();
    assert!((p.x - 5 * UNIT).abs() <= UNIT && (p.y - 7 * UNIT).abs() <= UNIT);
    assert_eq!(system.total_collisions(), 0);
}

#[test]
fn move_phase_takes_a_step_for_each_worker() {
    let mut system = system_of(&vec![at(5, 5); 20]);
    for round in 1..=20i64 {
        system.move_phase();
        for i in 0..system.len() {
            let p = system.particle(i).unwrap();
            assert!(0 <= p.x && p.x <= MAX_COORD);
            assert!(0 <= p.y && p.y <= MAX_COORD);
            if round == 1 {
                assert!((p.x - 5 * UNIT).abs() <= 4 * UNIT);
                assert!((p.y - 5 * UNIT).abs() <= 4 * UNIT);
            }
        }
    }
    assert_eq!(system.total_collisions(), 0);
    assert_eq!(system.len(), 20);
}

#[test]
fn tick_counts_on_the_moved_particles() {
    let mut system = system_of(&[at(0, 0), at(9, 9)]);
    system.tick();
    assert_eq!(system.total_collisions(), 0);
    let mut lone = system_of(&[at(5, 7)]);
    lone.tick();
    assert_eq!(lone.total_collisions(), 0);
    let mut pair = system_of(&[Particle::new(i64::MAX, 0), Particle::new(i64::MAX, -UNIT)]);
    pair.tick();
    let a = pair.particle(0).unwrap();
    let b = pair.particle(1).unwrap();
    let expected = if a.collide(&b) { 4 } else { 0 };
    assert_eq!(pair.total_collisions(), expected);
}

#[test]
fn zero_budget_still_runs_one_tick() {
    let mut system = system_of(&vec![at(5, 7); 20]);
    let (ticks, collisions) = system.simulate_particles(0);
    assert_eq!(ticks, 1);
    assert_eq!(collisions, system.total_collisions());
    assert_eq!(collisions % NUM_OF_THREADS, 0);
    assert_eq!(system.len(), 20);
    for i in 0..system.len() {
        let p = system.particle(i).unwrap();
        assert!((p.x - 5 * UNIT).abs() <= 4 * UNIT);
        assert!((p.y - 7 * UNIT).abs() <= 4 * UNIT);
        assert!(p.y <= MAX_COORD);
    }
}

#[test]
fn a_budget_of_one_second_runs_ticks_until_it_is_spent() {
    let mut system = system_of(&vec![at(5, 7); 20]);
    let (ticks, collisions) = system.simulate_particles(1);
    assert!(ticks >= 1);
    assert_eq!(collisions, system.total_collisions());
}

#[test]
fn driver_starts_with_a_tick() {
    let (state, action) = driver_step(DriverState::NotStarted, 0, 0);
    assert_eq!(state, DriverState::Running { ticks: 0 });
    assert_eq!(action, DriverAction::RunTick);
    let (state, action) = driver_step(DriverState::NotStarted, 99, 10);
    assert_eq!(state, DriverState::Running { ticks: 0 });
    assert_eq!(action, DriverAction::RunTick);
}

#[test]
fn driver_with_zero_budget_ends_after_one_tick() {
    let (state, _) = driver_step(DriverState::NotStarted, 0, 0);
    let (state, action) = driver_step(state, 0, 0);
    assert_eq!(state, DriverState::Finished { ticks: 1 });
    assert_eq!(action, DriverAction::Report { ticks: 1 });
}

#[test]
fn driver_goes_on_until_the_budget_is_spent() {
    let mut state = driver_step(DriverState::NotStarted, 0, 10).0;
    for (i, elapsed) in [0u64, 3, 9].iter().enumerate() {
        let (next, action) = driver_step(state, *elapsed, 10);
        assert_eq!(next, DriverState::Running { ticks: i + 1 });
        assert_eq!(action, DriverAction::RunTick);
        state = next;
    }
    let (next, action) = driver_step(state, 10, 10);
    assert_eq!(next, DriverState::Finished { ticks: 4 });
    assert_eq!(action, DriverAction::Report { ticks: 4 });
    let (overshoot, _) = driver_step(DriverState::Running { ticks: 7 }, 25, 10);
    assert_eq!(overshoot, DriverState::Finished { ticks: 8 });
}

#[test]
fn driver_stays_finished() {
    let (state, action) = driver_step(DriverState::Finished { ticks: 5 }, 0, 10);
    assert_eq!(state, DriverState::Finished { ticks: 5 });
    assert_eq!(action, DriverAction::Report { ticks: 5 });
}

#[test]
fn driver_ends_when_the_count_is_full() {
    let (state, action) = driver_step(DriverState::Running { ticks: usize::MAX - 1 }, 0, 10);
    assert_eq!(state, DriverState::Finished { ticks: usize::MAX });
    assert_eq!(action, DriverAction::Report { ticks: usize::MAX });
    let (state, _) = driver_step(DriverState::Running { ticks: usize::MAX }, 0, 10);
    assert_eq!(state, DriverState::Finished { ticks: usize::MAX });
    let (state, _) = driver_step(DriverState::Running { ticks: usize::MAX - 2 }, 0, 10);
    assert_eq!(state, DriverState::Running { ticks: usize::MAX - 1 });
}
