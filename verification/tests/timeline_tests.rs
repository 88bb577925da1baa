use samrewritten::timeline::{build, mark_clusters, Burst, LocalDays, Timeline, UnlockCache, UnlockStamp};
use std::collections::HashSet;

fn stamps(entries: &[(u32, u32)]) -> UnlockCache {
    UnlockCache {
        stamps: entries
            .iter()
            .map(|&(app_id, unlock_time)| UnlockStamp {
                app_id,
                unlock_time,
            })
            .collect(),
        apps: entries.iter().map(|&(app_id, _)| app_id).collect(),
        last_full_scan: None,
    }
}

/// Builds in UTC: every stamp lands on `unix / 86400`.
fn build_utc(cache: UnlockCache) -> Timeline {
    let mut days = LocalDays::new();
    let placed: Vec<Option<i32>> = cache
        .stamps
        .iter()
        .map(|s| days.day_with_offset(s.unlock_time, Some(0)))
        .collect();
    build(cache, &placed)
}

#[test]
fn a_dump_is_a_burst() {
    let all_at_once: Vec<(u32, u32)> = (0..12).map(|_| (440, 1_700_000_000)).collect();
    let timeline = build_utc(stamps(&all_at_once));
    assert_eq!(timeline.total, 12);
    assert_eq!(timeline.bursts.len(), 1);
    assert_eq!(timeline.bursts[0].count, 12);
    assert_eq!(timeline.bursts[0].span, 0);
}

#[test]
fn playing_is_not_a_burst() {
    let paced: Vec<(u32, u32)> = (0..12).map(|i| (440, 1_700_000_000 + i * 60)).collect();
    assert!(build_utc(stamps(&paced)).bursts.is_empty());

    let split: Vec<(u32, u32)> = (0..12).map(|i| (440 + i % 2, 1_700_000_000)).collect();
    assert!(build_utc(stamps(&split)).bursts.is_empty());
}

#[test]
fn a_burst_stops_at_the_gap() {
    let mut entries: Vec<(u32, u32)> = (0..11).map(|_| (440, 1_700_000_000)).collect();
    entries.extend((0..4).map(|i| (440, 1_700_000_100 + i)));
    let timeline = build_utc(stamps(&entries));
    assert_eq!(timeline.bursts.len(), 1);
    assert_eq!(timeline.bursts[0].count, 11);
}

#[test]
fn a_run_knows_what_surrounds_it() {
    let mut entries: Vec<(u32, u32)> = vec![(440, 1_699_000_000), (440, 1_699_000_500)];
    entries.extend((0..11).map(|_| (440, 1_700_000_000)));
    entries.extend((0..4).map(|i| (440, 1_700_100_000 + i * 900)));
    let timeline = build_utc(stamps(&entries));
    assert_eq!(timeline.bursts.len(), 1);
    assert_eq!(timeline.bursts[0].earlier, 2);
    assert_eq!(timeline.bursts[0].later, 4);
    assert_eq!(timeline.bursts[0].ordinary_later, 4);

    let alone: Vec<(u32, u32)> = (0..11).map(|_| (440, 1_700_000_000)).collect();
    let timeline = build_utc(stamps(&alone));
    assert_eq!(timeline.bursts[0].earlier, 0);
    assert_eq!(timeline.bursts[0].later, 0);
    assert_eq!(timeline.bursts[0].ordinary_later, 0);
}

#[test]
fn more_runs_after_a_run_are_not_ordinary_play() {
    let mut entries: Vec<(u32, u32)> = (0..11).map(|_| (440, 1_700_000_000)).collect();
    entries.extend((0..12).map(|_| (440, 1_700_050_000)));
    entries.extend([(440, 1_700_090_000), (440, 1_700_095_000)]);

    let timeline = build_utc(stamps(&entries));
    let first = timeline
        .bursts
        .iter()
        .find(|burst| burst.start == 1_700_000_000)
        .expect("the first run is a burst");
    assert_eq!(first.later, 14);
    assert_eq!(first.ordinary_later, 2);

    let second = timeline
        .bursts
        .iter()
        .find(|burst| burst.start == 1_700_050_000)
        .expect("the second run is a burst");
    assert_eq!(second.earlier, 11);
    assert_eq!(second.ordinary_later, 2);
}

#[test]
fn games_dumped_together_are_one_sitting() {
    let mut entries = Vec::new();
    for (app, offset) in [(440u32, 0u32), (620, 30), (730, 60)] {
        entries.extend((0..11).map(|i| (app, 1_700_000_000 + offset + i % 3)));
    }
    entries.extend((0..11).map(|_| (570u32, 1_700_003_600u32)));

    let timeline = build_utc(stamps(&entries));
    assert_eq!(timeline.bursts.len(), 4);
    for burst in &timeline.bursts {
        let expected = if burst.app_id == 570 { 1 } else { 3 };
        assert_eq!(burst.cluster_apps, expected, "app {}", burst.app_id);
    }
}

#[test]
fn one_game_in_pieces_is_still_one_game() {
    let mut entries: Vec<(u32, u32)> = (0..11).map(|_| (440, 1_700_000_000)).collect();
    entries.extend((0..11).map(|_| (440, 1_700_000_030)));
    let timeline = build_utc(stamps(&entries));
    assert_eq!(timeline.bursts.len(), 2);
    assert!(timeline.bursts.iter().all(|b| b.cluster_apps == 1));
}

#[test]
fn bursts_come_latest_first() {
    let mut entries: Vec<(u32, u32)> = (0..10).map(|_| (1, 1_000)).collect();
    entries.extend((0..10).map(|_| (2, 5_000)));
    entries.extend((0..10).map(|_| (3, 3_000)));
    let timeline = build_utc(stamps(&entries));
    let starts: Vec<u32> = timeline.bursts.iter().map(|b| b.start).collect();
    assert_eq!(starts, vec![5_000, 3_000, 1_000]);
    let clusters: Vec<usize> = timeline.bursts.iter().map(|b| b.cluster).collect();
    assert_eq!(clusters, vec![2, 1, 0]);
}

#[test]
fn nine_at_once_is_not_enough() {
    let entries: Vec<(u32, u32)> = (0..9).map(|_| (440, 1_700_000_000)).collect();
    assert!(build_utc(stamps(&entries)).bursts.is_empty());
}

#[test]
fn the_histogram_counts_days_and_games() {
    const DAY: u32 = 86_400;
    let entries = [(440, 10 * DAY), (620, 10 * DAY + 5), (440, 10 * DAY + 9), (440, 12 * DAY)];
    let timeline = build_utc(stamps(&entries));
    assert_eq!(timeline.total, 4);
    assert_eq!(timeline.first, Some(10 * DAY));
    assert_eq!(timeline.per_day.get(&10), Some(&3));
    assert_eq!(timeline.per_day.get(&12), Some(&1));
    assert_eq!(timeline.per_day.get(&11), None);
    assert_eq!(timeline.apps_per_day.get(&10).map(HashSet::len), Some(2));
    let days: Vec<i32> = timeline.chronology.iter().map(|s| s.day).collect();
    assert_eq!(days, vec![10, 10, 10, 12]);
}

#[test]
fn the_chronology_is_in_time_order() {
    let entries = [(1, 300), (2, 100), (3, 200)];
    let timeline = build_utc(stamps(&entries));
    let apps: Vec<u32> = timeline.chronology.iter().map(|s| s.app_id).collect();
    assert_eq!(apps, vec![2, 3, 1]);
}

#[test]
fn an_unplaced_stamp_is_counted_but_not_drawn() {
    let cache = stamps(&[(1, 100), (1, 200)]);
    let timeline = build(cache, &vec![None, Some(0)]);
    assert_eq!(timeline.total, 2);
    assert_eq!(timeline.first, Some(100));
    assert_eq!(timeline.chronology.len(), 1);
    assert_eq!(timeline.per_day.get(&0), Some(&1));
}

#[test]
fn an_empty_cache_is_an_empty_timeline() {
    let timeline = build_utc(stamps(&[]));
    assert_eq!(timeline.total, 0);
    assert_eq!(timeline.first, None);
    assert!(timeline.bursts.is_empty());
    assert!(timeline.per_day.is_empty());
}

#[test]
fn local_days_follow_the_offset() {
    let mut days = LocalDays::new();
    assert_eq!(days.cached_day(86_399), None);
    assert_eq!(days.day_with_offset(86_399, Some(3_600)), Some(1));
    assert_eq!(days.cached_day(86_000), Some(1));
    assert_eq!(days.day_with_offset(100, Some(-3_600)), Some(-1));
    assert_eq!(days.day_with_offset(100, None), None);
}

#[test]
fn sittings_are_numbered_from_the_earliest() {
    let burst = |app_id: u32, start: u32| Burst {
        app_id,
        count: 10,
        start,
        span: 0,
        earlier: 0,
        later: 0,
        ordinary_later: 0,
        cluster: 0,
        cluster_apps: 1,
    };
    let mut bursts = vec![burst(1, 500), burst(2, 100), burst(3, 150), burst(1, 120)];
    mark_clusters(&mut bursts);
    let marks: Vec<(usize, usize)> = bursts.iter().map(|b| (b.cluster, b.cluster_apps)).collect();
    assert_eq!(marks, vec![(1, 1), (0, 3), (0, 3), (0, 3)]);
}

#[test]
fn bursts_come_latest_first_and_hold_ten_or_more() {
    let mut entries: Vec<(u32, u32)> = (0..10).map(|_| (440, 1_600_000_000)).collect();
    entries.extend((0..12).map(|_| (620, 1_700_000_000)));
    entries.extend((0..3).map(|i| (620, 1_700_050_000 + i * 100)));
    entries.extend((0..11).map(|_| (730, 1_650_000_000)));
    let timeline = build_utc(stamps(&entries));
    let starts: Vec<u32> = timeline.bursts.iter().map(|b| b.start).collect();
    assert_eq!(starts, vec![1_700_000_000, 1_650_000_000, 1_600_000_000]);
    assert!(timeline.bursts.iter().all(|b| b.count >= 10 && b.ordinary_later <= b.later));
    assert_eq!((timeline.bursts[0].later, timeline.bursts[0].ordinary_later), (3, 3));
}

/// A zone that moves from UTC+1 to UTC+2 at the start of hour 100 and cannot
/// place times before hour 2.
fn hourly_zone(unix_seconds: u32) -> Option<i64> {
    let hour = unix_seconds / 3600;
    if hour < 2 {
        None
    } else if hour < 100 {
        Some(3_600)
    } else {
        Some(7_200)
    }
}

#[test]
fn remembered_offsets_never_change_a_day() {
    let stamps = [
        359_999, 8_000, 360_001, 356_400, 359_000, 3_000, 363_599, 10_000, 82_800, 82_799, 172_790,
        172_799, 359_999,
    ];
    let mut days = LocalDays::new();
    for s in stamps {
        let expected = hourly_zone(s).map(|offset| (i64::from(s) + offset).div_euclid(86_400) as i32);
        assert_eq!(days.day_of(s, hourly_zone), expected, "{s}");
    }
}
