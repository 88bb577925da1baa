use samrewritten::profile::started_fractions;
use samrewritten::library::AppRecord;
use samrewritten::profile::{
    collect_stats, missing_from_cache, reads_as, rows_for, rows_shown, tile_face, Reading, Row,
    TileFace,
};
use samrewritten::timeline::Burst;
use std::collections::{HashMap, HashSet};

fn burst(app_id: u32, start: u32, count: usize, earlier: usize, later: usize, ordinary_later: usize) -> Burst {
    Burst {
        app_id,
        count,
        start,
        span: 0,
        earlier,
        later,
        ordinary_later,
        cluster: 0,
        cluster_apps: 1,
    }
}

#[test]
fn a_run_reads_by_what_surrounds_it() {
    let mut sitting = burst(440, 100, 11, 0, 0, 0);
    sitting.cluster_apps = 2;
    assert_eq!(reads_as(&sitting, Some(5000)), Reading::SeveralGames);
    assert_eq!(reads_as(&burst(440, 100, 11, 0, 0, 0), Some(10)), Reading::NeverPlayed);
    assert_eq!(reads_as(&burst(440, 100, 11, 0, 0, 0), Some(30)), Reading::WholeGame);
    assert_eq!(reads_as(&burst(440, 100, 11, 0, 0, 0), None), Reading::WholeGame);
    assert_eq!(reads_as(&burst(440, 100, 11, 0, 3, 1), None), Reading::CouldBeBackfill);
    assert_eq!(reads_as(&burst(440, 100, 11, 0, 3, 0), None), Reading::MidHistory);
    assert_eq!(reads_as(&burst(440, 100, 11, 2, 0, 0), None), Reading::MidHistory);
}

#[test]
fn a_sitting_is_one_line_ranked_first() {
    let whole = burst(440, 300, 12, 0, 0, 0);
    let mut first = burst(620, 200, 11, 0, 0, 0);
    first.cluster = 1;
    first.cluster_apps = 2;
    let mut second = burst(730, 190, 12, 0, 0, 0);
    second.cluster = 1;
    second.cluster_apps = 2;
    let unplayed = burst(800, 50, 10, 0, 0, 0);
    let mut playtimes = HashMap::new();
    playtimes.insert(800u32, 5u32);
    playtimes.insert(440, 600);

    let rows = rows_for(&vec![whole, first, second, unplayed], &playtimes);
    assert_eq!(rows.len(), 3);
    match &rows[0] {
        Row::Sitting { start, games, count, apps } => {
            assert_eq!((*start, *games, *count), (190, 2, 23));
            assert_eq!(apps, &vec![620, 730]);
        }
        Row::Single(..) => panic!("the sitting ranks first"),
    }
    assert!(matches!(&rows[1], Row::Single(Reading::NeverPlayed, b) if b.app_id == 800));
    assert!(matches!(&rows[2], Row::Single(Reading::WholeGame, b) if b.app_id == 440));
}

#[test]
fn equal_readings_list_the_latest_first() {
    let older = burst(440, 100, 11, 0, 0, 0);
    let newer = burst(620, 500, 11, 0, 0, 0);
    let rows = rows_for(&vec![older, newer], &HashMap::new());
    assert!(matches!(&rows[0], Row::Single(_, b) if b.app_id == 620));
    assert!(matches!(&rows[1], Row::Single(_, b) if b.app_id == 440));
}

fn game(app_id: u32, loaded: bool, total: u32, unlocked: u32, playtime: u32) -> AppRecord {
    let mut app = AppRecord::new(app_id, "", false, Some(playtime), None, None, None);
    app.set_counts(total, unlocked, loaded);
    app
}

#[test]
fn the_library_totals_leave_out_junk_and_the_search_card() {
    let mut junk = game(3, true, 10, 10, 60);
    junk.is_junk = true;
    let mut card = game(4, true, 10, 10, 60);
    card.is_synthetic = true;
    let apps = vec![
        game(1, true, 10, 10, 120),
        game(2, true, 4, 1, 30),
        game(5, false, 0, 0, 15),
        game(6, true, 0, 0, 0),
        junk,
        card,
    ];
    let stats = collect_stats(&apps);
    assert_eq!(stats.apps, 4);
    assert_eq!(stats.measured, 3);
    assert_eq!(stats.unlocked, 11);
    assert_eq!(stats.total, 14);
    assert_eq!(stats.perfect, 1);
    assert_eq!(stats.playtime_minutes, 165);
    assert_eq!(stats.started, 2);
    assert_eq!(tile_face(true, &stats, true), TileFace::Loading);
    assert_eq!(tile_face(true, &stats, false), TileFace::Unknown);
    assert_eq!(tile_face(false, &stats, true), TileFace::Value);
}

#[test]
fn missing_records_are_counted_only_once_everything_is_read() {
    let cached: HashSet<u32> = HashSet::from([1]);
    let read = vec![game(1, true, 10, 1, 0), game(2, true, 5, 0, 0), game(3, true, 0, 0, 0)];
    assert_eq!(missing_from_cache(&read, &cached), 1);
    let unread = vec![game(2, true, 5, 0, 0), game(7, false, 0, 0, 0)];
    assert_eq!(missing_from_cache(&unread, &cached), 0);
}

#[test]
fn only_the_first_runs_are_listed() {
    assert_eq!(rows_shown(30), (25, 5));
    assert_eq!(rows_shown(3), (3, 0));
}

use samrewritten::profile::{completion_steps, CurveStep};
use samrewritten::timeline::{build, LocalDays, UnlockCache, UnlockStamp};

/// The completion curve's steps for unlocks of `(app_id, unix time)` in UTC.
fn steps(entries: &[(u32, u32)], totals: &HashMap<u32, u32>) -> Vec<CurveStep> {
    let cache = UnlockCache {
        stamps: entries
            .iter()
            .map(|&(app_id, unlock_time)| UnlockStamp { app_id, unlock_time })
            .collect(),
        apps: entries.iter().map(|&(app_id, _)| app_id).collect(),
        last_full_scan: None,
    };
    let mut days = LocalDays::new();
    let placed: Vec<Option<i32>> = cache
        .stamps
        .iter()
        .map(|s| days.day_with_offset(s.unlock_time, Some(0)))
        .collect();
    let timeline = build(cache, &placed);
    completion_steps(&timeline.chronology, totals)
}

fn step(day: i32, total: u32, counted: bool, started: u32, new_point: bool) -> CurveStep {
    CurveStep { day, total, counted, started, new_point }
}

/// Day three's second game opens at one of four, so the average of the
/// started games drops from 100% to (100 + 25) / 2.
#[test]
fn starting_a_game_pulls_the_average_down() {
    const DAY: u32 = 86_400;
    let entries = [
        (440, 1_700_000_000),
        (440, 1_700_000_000 + DAY),
        (620, 1_700_000_000 + 2 * DAY),
    ];
    let totals = HashMap::from([(440u32, 2u32), (620, 4)]);
    let first = (1_700_000_000 / DAY) as i32;
    assert_eq!(
        steps(&entries, &totals),
        vec![
            step(first, 2, true, 1, true),
            step(first + 1, 2, true, 1, true),
            step(first + 2, 4, true, 2, true),
        ]
    );
}

#[test]
fn an_unmeasured_game_is_not_averaged_in() {
    let entries = [(440, 1_700_000_000), (999, 1_700_100_000)];
    let totals = HashMap::from([(440u32, 4u32)]);
    let first = (1_700_000_000 / 86_400) as i32;
    // One point at one of four: 25%.
    assert_eq!(steps(&entries, &totals), vec![step(first, 4, true, 1, true)]);
}

#[test]
fn nothing_measured_is_a_flat_nothing() {
    assert!(steps(&[(440, 1_700_000_000)], &HashMap::new()).is_empty());
}

#[test]
fn extra_unlocks_past_the_total_do_not_count() {
    let entries = [(440, 1_700_000_000), (440, 1_700_000_001), (440, 1_700_000_002)];
    let totals = HashMap::from([(440u32, 2u32)]);
    let day = (1_700_000_000 / 86_400) as i32;
    // The third unlock moves the day's point without adding: it stays at 100%.
    assert_eq!(
        steps(&entries, &totals),
        vec![step(day, 2, true, 1, true), step(day, 2, true, 1, false), step(day, 2, false, 1, false)]
    );
}

#[test]
fn every_started_game_gives_one_capped_fraction() {
    let game = |id: u32, total: u32, unlocked: u32| {
        AppRecord::new(id, "g", false, None, None, Some(total), Some(unlocked))
    };
    let mut junk = game(9, 10, 5);
    junk.is_junk = true;
    let apps = vec![game(1, 4, 4), game(2, 10, 0), game(3, 0, 0), game(4, 2, 5), junk, game(5, 8, 2)];
    let fractions = started_fractions(&apps);
    assert_eq!(fractions, vec![(4, 4), (2, 2), (2, 8)]);
    assert_eq!(fractions.len() as u32, collect_stats(&apps).started);
}
