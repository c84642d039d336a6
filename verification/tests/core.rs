use neuroarena::cohort::{Cohort, Member};
use neuroarena::deepfield::{lattice_hash, lattice_wrap, octave_seed, SIZE};
use neuroarena::effects::{push_capped, ship_died, spark_seed, wave_cleared};
use neuroarena::gpu::{fresh_seed, note_error, take_error};
use neuroarena::painter::{Align, Typeface};
use neuroarena::scene::{boundary_joins, lcg_unit};
use std::collections::VecDeque;

#[test]
fn the_first_gpu_error_is_the_one_shown() {
    let mut slot: Option<String> = None;
    assert!(note_error(&mut slot, "first".to_string()));
    assert!(!note_error(&mut slot, "second".to_string()));
    assert_eq!(take_error(&mut slot), Some("first".to_string()));
    assert_eq!(take_error(&mut slot), None);
    assert!(note_error(&mut slot, "third".to_string()));
    assert_eq!(slot, Some("third".to_string()));
}

#[test]
fn a_fresh_seed_is_never_zero() {
    assert_eq!(fresh_seed(0, 0), 1);
    assert_eq!(fresh_seed(5, 5), 1);
    assert_eq!(fresh_seed(0b1010, 0b0110), 0b1100);
    assert_eq!(fresh_seed(7, 1 << 32), 7);
    assert_eq!(fresh_seed(123_456_789, 1_700_000_000), 123_456_789 ^ 1_700_000_000);
}

#[test]
fn the_lattice_hash_is_integer_and_fixed() {
    assert_eq!(lattice_hash(0, 0, 0x0DEE_9F1D), 2443938);
    assert_eq!(lattice_hash(3, -1, 0x0DEE_2024), 12739847);
    assert_eq!(lattice_hash(1, 2, 0), 1962611);
    for x in -5..5 {
        for y in -5..5 {
            assert!(lattice_hash(x, y, 17) < 1 << 24);
        }
    }
    assert_eq!(octave_seed(0x0DEE_9F1D, 2), 1247646351);
    assert_eq!(octave_seed(7, 0), 7);
    assert_eq!(SIZE, 256);
}

#[test]
fn every_lattice_coordinate_wraps_into_its_period() {
    for period in [2, 3, 4, 6, 48] {
        for value in -100..100 {
            let wrapped = lattice_wrap(value, period);
            assert_eq!(wrapped, value.rem_euclid(period));
            assert_eq!(lattice_wrap(value + period, period), wrapped);
        }
    }
    assert_eq!(lattice_wrap(-1, 4), 3);
}

#[test]
fn the_starfield_generator_is_the_numerical_recipes_lcg() {
    let mut seed: u32 = 0x5EED_2024;
    assert_eq!(f32::from_bits(lcg_unit(&mut seed)), 11324397.0 / 16_777_216.0);
    assert_eq!(seed, 2899045683);
    let mut zero: u32 = 0;
    assert_eq!(f32::from_bits(lcg_unit(&mut zero)), 3960563.0 / 16_777_216.0);
    assert_eq!(zero, 1013904223);
    // Every value lies in 0..1, and is the state's high bits over 2^24.
    let mut state: u32 = 7;
    for _ in 0..10_000 {
        let unit = f32::from_bits(lcg_unit(&mut state));
        assert!((0.0..1.0).contains(&unit));
        assert_eq!(unit, (state >> 8) as f32 / 16_777_216.0);
    }
}

#[test]
fn spark_seeds_come_from_the_event_identity() {
    let a = spark_seed(20576, 12816, 250);
    assert_eq!(a, 336458893);
    assert_eq!(a, spark_seed(20576, 12816, 250));
    assert_ne!(a, spark_seed(20576, 12816, 251));
    assert_ne!(a, spark_seed(20577, 12816, 250));
    assert_ne!(a, spark_seed(20576, 12817, 250));
    assert_eq!(spark_seed(1, 2, 3), 4036031852);
}

#[test]
fn a_storm_has_a_fixed_capacity() {
    let mut queue: VecDeque<u32> = VecDeque::new();
    for i in 0..60 {
        push_capped(&mut queue, i, 24);
        assert!(queue.len() <= 24);
    }
    assert_eq!(queue.len(), 24);
    assert_eq!(queue.front(), Some(&36));
    assert_eq!(queue.back(), Some(&59));
}

#[test]
fn only_a_rising_wave_or_a_fresh_death_is_an_event() {
    assert!(!wave_cleared(None, 4));
    assert!(wave_cleared(Some(4), 5));
    assert!(!wave_cleared(Some(5), 5));
    assert!(!wave_cleared(Some(5), 2));
    assert!(!ship_died(None, false));
    assert!(!ship_died(Some(false), false));
    assert!(!ship_died(Some(true), true));
    assert!(ship_died(Some(true), false));
}

fn member(alive: f32, coverage: f32, wave: u32, fitness: f32) -> Member {
    Member {
        alive: alive.to_bits(),
        coverage: coverage.to_bits(),
        fitness: fitness.to_bits(),
        wave,
        novelty: 0.0f32.to_bits(),
    }
}

#[test]
fn a_cohort_fills_in_as_episodes_land() {
    let mut cohort = Cohort::new();
    cohort.begin(1, 4, 2);
    assert_eq!(cohort.settled(), 0);
    assert_eq!(cohort.size(), 4);
    assert_eq!(cohort.watched(), 2);
    cohort.record(0, member(12.0, 0.25, 0, 100.0));
    cohort.record(3, member(30.0, 0.5, 1, 400.0));
    assert_eq!(cohort.settled(), 2);
    // Members keep their slot: the Arena's member is identified by index.
    assert!(cohort.slots()[1].is_none());
    assert_eq!(cohort.slots()[3].unwrap().wave, 1);
}

#[test]
fn the_previous_generation_becomes_the_ghost() {
    let mut cohort = Cohort::new();
    cohort.begin(1, 2, 0);
    cohort.record(0, member(10.0, 0.1, 0, 1.0));
    cohort.record(1, member(20.0, 0.2, 0, 2.0));
    cohort.begin(2, 2, 0);
    assert_eq!(cohort.ghost().len(), 2);
    assert_eq!(cohort.settled(), 0);
    // A Generation that banked nothing must not wipe the ghost: the
    // comparison the instrument exists for would vanish for one frame.
    cohort.begin(3, 2, 0);
    assert_eq!(cohort.ghost().len(), 2);
}

#[test]
fn the_median_is_over_what_has_landed() {
    let mut cohort = Cohort::new();
    cohort.begin(1, 3, 0);
    assert!(cohort.median().is_none());
    cohort.record(0, member(10.0, 0.1, 0, 1.0));
    cohort.record(1, member(50.0, 0.3, 1, 2.0));
    cohort.record(2, member(30.0, 0.2, 0, 3.0));
    let median = cohort.median().unwrap();
    assert_eq!(f32::from_bits(median.alive), 30.0);
    assert_eq!(f32::from_bits(median.coverage), 0.2);
}

#[test]
fn clearing_a_cohort_forgets_the_ghost_too() {
    let mut cohort = Cohort::new();
    cohort.begin(1, 1, 0);
    cohort.record(0, member(10.0, 0.1, 0, 1.0));
    cohort.begin(2, 1, 0);
    cohort.clear();
    assert!(cohort.ghost().is_empty());
    assert_eq!(cohort.size(), 0);
    assert!(cohort.median().is_none());
}

#[test]
fn out_of_range_members_and_watches_are_kept_in_bounds() {
    let mut cohort = Cohort::new();
    cohort.record(9, member(1.0, 0.0, 0, 0.0));
    assert_eq!(cohort.size(), 0);
    cohort.begin(2, 3, 7);
    assert_eq!(cohort.watched(), 2);
    cohort.record(9, member(1.0, 0.0, 0, 0.0));
    assert_eq!(cohort.settled(), 0);
    cohort.begin(3, 0, 5);
    assert_eq!(cohort.watched(), 0);
    assert_eq!(cohort.generation(), 3);
}

#[test]
fn the_median_takes_each_column_in_total_order() {
    let mut cohort = Cohort::new();
    cohort.begin(1, 4, 0);
    cohort.record(0, member(-0.0, 0.9, 7, 0.0));
    cohort.record(1, member(0.0, -1.0, 2, 0.0));
    cohort.record(2, member(-5.0, f32::NAN, 9, 0.0));
    cohort.record(3, member(f32::INFINITY, 0.5, 4, 0.0));
    // Four members: the upper of the two middles, column by column.
    let median = cohort.median().unwrap();
    let mut alive = [-0.0f32, 0.0, -5.0, f32::INFINITY];
    alive.sort_by(f32::total_cmp);
    let mut coverage = [0.9f32, -1.0, f32::NAN, 0.5];
    coverage.sort_by(f32::total_cmp);
    assert_eq!(median.alive, alive[2].to_bits());
    assert_eq!(median.alive, 0.0f32.to_bits());
    assert_eq!(median.coverage, coverage[2].to_bits());
    assert_eq!(median.wave, 7);
    assert_eq!(median.fitness, 0.0f32.to_bits());
}

#[test]
fn text_anchors_and_faces_are_distinct() {
    assert_ne!(Align::Left, Align::Right);
    assert_ne!(Align::Center, Align::Left);
    assert_ne!(Typeface::Mono, Typeface::Display);
}

#[test]
fn the_boundary_never_crosses_a_bearing_that_read_nothing() {
    let samples = [Some([1.0f32, 0.0]), None, Some([0.0, 2.0]), Some([3.0, 3.0])];
    assert!(!boundary_joins(&samples, 0));
    assert!(!boundary_joins(&samples, 1));
    assert!(boundary_joins(&samples, 2));
    // The last sample has no neighbour after it, and past the end there is nothing.
    assert!(!boundary_joins(&samples, 3));
    assert!(!boundary_joins(&samples, 9));
    let empty: [Option<u8>; 0] = [];
    assert!(!boundary_joins(&empty, 0));
}
