use samrewritten::schedule::{
    compute_unlock_times_ms, compute_unlock_times_seeded, SeededRng, MIN_GAP_MS, SPACING_EVEN,
    SPACING_RANDOM,
};

#[test]
fn even_spacing_is_uniform() {
    let times = compute_unlock_times_ms(5, 1000, SPACING_EVEN);
    assert_eq!(times, vec![200, 400, 600, 800, 1000]);
}

#[test]
fn random_spacing_pins_first_and_last() {
    let times = compute_unlock_times_ms(5, 10_000, SPACING_RANDOM);
    assert_eq!(times.len(), 5);
    assert_eq!(times[0], 2_000);
    assert_eq!(times[4], 10_000);
    for w in times.windows(2) {
        assert!(w[1] >= w[0]);
    }
}

#[test]
fn random_spacing_with_two_is_linear() {
    let times = compute_unlock_times_ms(2, 10_000, SPACING_RANDOM);
    assert_eq!(times, vec![5_000, 10_000]);
}

#[test]
fn random_spacing_with_one_is_linear() {
    let times = compute_unlock_times_ms(1, 10_000, SPACING_RANDOM);
    assert_eq!(times, vec![10_000]);
}

#[test]
fn nothing_to_unlock_is_an_empty_schedule() {
    assert!(compute_unlock_times_ms(0, 10_000, SPACING_RANDOM).is_empty());
    assert!(compute_unlock_times_ms(0, 10_000, SPACING_EVEN).is_empty());
}

#[test]
fn an_unknown_spacing_is_even() {
    assert_eq!(compute_unlock_times_ms(4, 1000, "sometimes"), vec![250, 500, 750, 1000]);
}

#[test]
fn a_window_that_does_not_divide_leaves_the_remainder() {
    assert_eq!(compute_unlock_times_ms(3, 1000, SPACING_EVEN), vec![333, 666, 999]);
}

#[test]
fn random_times_keep_the_gap_unless_capped() {
    for seed in 0..50u64 {
        let times = compute_unlock_times_seeded(12, 60_000, SPACING_RANDOM, seed);
        assert_eq!(times.len(), 12);
        assert_eq!(times[0], 5_000);
        assert_eq!(times[11], 60_000);
        for w in times.windows(2) {
            assert!(w[1] >= w[0] + MIN_GAP_MS || w[1] == 60_000);
        }
    }
}

#[test]
fn a_crowded_window_piles_up_at_its_end() {
    let times = compute_unlock_times_seeded(10, 10_000, SPACING_RANDOM, 7);
    assert_eq!(times[0], 1_000);
    assert!(times.iter().all(|&t| t <= 10_000));
    assert_eq!(*times.last().unwrap(), 10_000);
}

#[test]
fn a_seed_gives_the_same_schedule_twice() {
    let a = compute_unlock_times_seeded(8, 100_000, SPACING_RANDOM, 42);
    let b = compute_unlock_times_seeded(8, 100_000, SPACING_RANDOM, 42);
    assert_eq!(a, b);
}

#[test]
fn xorshift_from_one() {
    let mut rng = SeededRng::from_seed(0);
    // 1 ^ (1 << 13) = 8193; ^ (8193 >> 7 = 64) = 8257; ^ (8257 << 17) = 1082269761
    assert_eq!(rng.next_u64(), 1_082_269_761);
}

#[test]
fn an_empty_range_draws_zero() {
    let mut rng = SeededRng::from_seed(5);
    assert_eq!(rng.next_u64_in(0), 0);
    let mut again = SeededRng::from_seed(5);
    assert_eq!(rng.next_u64(), again.next_u64());
}

#[test]
fn draws_stay_below_the_bound() {
    let mut rng = SeededRng::from_time();
    for _ in 0..1000 {
        assert!(rng.next_u64_in(17) < 17);
    }
}

use samrewritten::schedule::{due_unlocks, refresh_interval_ms, seconds_left};

#[test]
fn the_countdown_refreshes_as_often_as_the_closest_unlocks_need() {
    assert_eq!(refresh_interval_ms(&vec![2000, 2300, 9000]), 300);
    assert_eq!(refresh_interval_ms(&vec![2000, 2010]), 50);
    assert_eq!(refresh_interval_ms(&vec![2000, 9000]), 1000);
    assert_eq!(refresh_interval_ms(&vec![2000]), 1000);
    assert_eq!(refresh_interval_ms(&vec![]), 1000);
}

#[test]
fn unlocks_fall_due_in_order() {
    let times = vec![1000, 2000, 3000];
    assert_eq!(due_unlocks(&times, 0, 500), 0);
    assert_eq!(due_unlocks(&times, 0, 2000), 2);
    assert_eq!(due_unlocks(&times, 2, 9000), 3);
    assert_eq!(seconds_left(3000, 500), 2);
    assert_eq!(seconds_left(3000, 5000), 0);
}
