use samrewritten::calendar::{days_from_civil, weekday};
use samrewritten::heatmap::{
    measure, cell_at, cell_size, day_at, day_summary, earliest_day, grid_days, grid_start, heatmap_caption,
    level, month_labels, readout, reselect, unlocks_between, year_choices, year_window_of,
    DaySummary, HeatmapCaption, Readout,
};
use std::collections::{HashMap, HashSet};

const NEW_YEAR_2024: i32 = 19723;

#[test]
fn the_grid_starts_on_the_monday_a_year_back() {
    assert_eq!(days_from_civil(2024, 1, 1), NEW_YEAR_2024);
    assert_eq!(grid_start(NEW_YEAR_2024), NEW_YEAR_2024 - 364);
    assert_eq!(weekday(grid_start(NEW_YEAR_2024)), 0);
    let thursday = NEW_YEAR_2024 + 3;
    assert_eq!(grid_start(thursday), NEW_YEAR_2024 - 364);
    assert_eq!(day_at(NEW_YEAR_2024, 52, 0), NEW_YEAR_2024);
    assert_eq!(day_at(thursday, 52, 3), thursday);
}

#[test]
fn squares_stay_between_the_smallest_and_largest_size() {
    assert_eq!(cell_size(0), 7);
    assert_eq!(cell_size(800), 12);
    assert_eq!(cell_size(2000), 14);
    assert_eq!(cell_size(-100), 7);
}

#[test]
fn shades_follow_the_floors() {
    assert_eq!(level(0), None);
    assert_eq!(level(1), Some(0));
    assert_eq!(level(2), Some(0));
    assert_eq!(level(3), Some(1));
    assert_eq!(level(5), Some(1));
    assert_eq!(level(6), Some(2));
    assert_eq!(level(10), Some(2));
    assert_eq!(level(11), Some(3));
    assert_eq!(level(1000), Some(3));
}

#[test]
fn the_pointer_finds_its_square() {
    // 800 pixels wide: squares of 12 with gaps of 3.
    assert_eq!(cell_at(true, 800, 20, NEW_YEAR_2024, 0, 20), Some((0, 0)));
    assert_eq!(cell_at(true, 800, 20, NEW_YEAR_2024, 13, 20), None);
    assert_eq!(cell_at(true, 800, 20, NEW_YEAR_2024, 0, 19), None);
    assert_eq!(cell_at(true, 800, 20, NEW_YEAR_2024, 780, 20), Some((52, 0)));
    assert_eq!(cell_at(true, 800, 20, NEW_YEAR_2024, 780, 35), None);
    assert_eq!(cell_at(true, 800, 20, NEW_YEAR_2024, 16, 36), Some((1, 1)));
    assert_eq!(cell_at(false, 800, 20, NEW_YEAR_2024, 0, 20), None);
    // Truncation toward zero keeps a pointer just left of the grid on it.
    assert_eq!(cell_at(true, 800, 20, NEW_YEAR_2024, -5, 20), Some((0, 0)));
}

fn sample_days() -> (HashMap<i32, u32>, HashMap<i32, HashSet<u32>>, HashMap<u32, String>) {
    let mut per_day = HashMap::new();
    per_day.insert(NEW_YEAR_2024, 3);
    per_day.insert(NEW_YEAR_2024 - 1, 4);
    let mut apps_per_day = HashMap::new();
    apps_per_day.insert(NEW_YEAR_2024, HashSet::from([440u32]));
    apps_per_day.insert(NEW_YEAR_2024 - 1, HashSet::from([440u32, 620]));
    let mut names = HashMap::new();
    names.insert(440u32, "Team Fortress 2".to_string());
    (per_day, apps_per_day, names)
}

#[test]
fn a_day_is_summed_up() {
    let (per_day, apps_per_day, names) = sample_days();
    let one = day_summary(&per_day, &apps_per_day, &names, NEW_YEAR_2024);
    assert_eq!((one.count, one.games, one.only.as_deref()), (3, 1, Some("Team Fortress 2")));
    let two = day_summary(&per_day, &apps_per_day, &names, NEW_YEAR_2024 - 1);
    assert_eq!((two.count, two.games, two.only), (4, 2, None));
    let none = day_summary(&per_day, &apps_per_day, &names, NEW_YEAR_2024 - 2);
    assert_eq!((none.count, none.games, none.only), (0, 0, None));
    let unnamed = day_summary(&per_day, &apps_per_day, &HashMap::new(), NEW_YEAR_2024);
    assert_eq!(unnamed.only, None);
}

#[test]
fn the_grid_holds_a_square_per_day_and_nothing_past_the_end() {
    let (per_day, apps_per_day, names) = sample_days();
    let cells = grid_days(&per_day, &apps_per_day, &names, NEW_YEAR_2024);
    assert_eq!(cells.len(), 53 * 7);
    assert_eq!(cells[364].count, 3);
    assert_eq!(cells[363].count, 4);
    assert_eq!(cells[365].count, 0);
    assert_eq!(cells[0].count, 0);
}

#[test]
fn months_label_their_first_week() {
    let expected: Vec<(i32, u32)> = vec![
        (0, 1),
        (5, 2),
        (9, 3),
        (13, 4),
        (17, 5),
        (22, 6),
        (26, 7),
        (31, 8),
        (35, 9),
        (39, 10),
        (44, 11),
        (48, 12),
        (52, 1),
    ];
    assert_eq!(month_labels(NEW_YEAR_2024), expected);
}

#[test]
fn the_readout_names_a_lone_game() {
    let summary = |count, games, only: Option<&str>| DaySummary {
        count,
        games,
        only: only.map(str::to_string),
    };
    assert_eq!(readout(&summary(0, 0, None)), Readout::Nothing);
    assert_eq!(readout(&summary(3, 1, Some("Portal"))), Readout::InGame);
    assert_eq!(readout(&summary(3, 2, None)), Readout::AcrossGames);
    assert_eq!(readout(&summary(3, 1, None)), Readout::Plain);
}

#[test]
fn the_current_year_ends_today_and_counts_back_as_far_as_the_grid() {
    assert_eq!(year_window_of(2023, NEW_YEAR_2024), (NEW_YEAR_2024 - 365, NEW_YEAR_2024 - 1));
    assert_eq!(year_window_of(2024, NEW_YEAR_2024), (NEW_YEAR_2024 - 364, NEW_YEAR_2024));
}

#[test]
fn the_caption_counts_what_the_grid_shows() {
    let mut per_day = HashMap::new();
    per_day.insert(NEW_YEAR_2024 - 365, 2u32);
    per_day.insert(NEW_YEAR_2024 - 1, 3);
    per_day.insert(NEW_YEAR_2024, 5);
    assert_eq!(unlocks_between(&per_day, NEW_YEAR_2024 - 365, NEW_YEAR_2024 - 1), 5);
    assert_eq!(unlocks_between(&per_day, NEW_YEAR_2024, NEW_YEAR_2024), 5);
    assert_eq!(unlocks_between(&per_day, NEW_YEAR_2024 + 1, NEW_YEAR_2024), 0);

    assert_eq!(heatmap_caption(10, 10, false, true), HeatmapCaption::AllSince);
    assert_eq!(heatmap_caption(5, 8, true, true), HeatmapCaption::LastYear);
    assert_eq!(heatmap_caption(5, 8, false, true), HeatmapCaption::InYear);
    assert_eq!(heatmap_caption(0, 0, true, false), HeatmapCaption::NoUnlocks);
}

#[test]
fn the_year_picker_runs_from_the_first_unlock_to_now() {
    let mut per_day = HashMap::new();
    per_day.insert(NEW_YEAR_2024, 1u32);
    per_day.insert(NEW_YEAR_2024 - 365, 1);
    per_day.insert(NEW_YEAR_2024 - 1, 1);
    assert_eq!(earliest_day(&per_day), Some(NEW_YEAR_2024 - 365));
    assert_eq!(earliest_day(&HashMap::new()), None);

    let years = year_choices(Some(NEW_YEAR_2024 - 365), NEW_YEAR_2024);
    assert_eq!(years, vec![2024, 2023]);
    assert_eq!(year_choices(None, NEW_YEAR_2024), vec![2024]);

    assert_eq!(reselect(&years, Some(2023)), 1);
    assert_eq!(reselect(&years, Some(2020)), 0);
    assert_eq!(reselect(&years, None), 0);
}

#[test]
fn the_grid_asks_for_room_for_its_squares() {
    assert_eq!(measure(true, -1, 0), (53 * 10 - 3, 53 * 17 - 3));
    assert_eq!(measure(false, -1, 16), (32 + 7 * 17 - 3, 32 + 7 * 17 - 3));
    assert_eq!(measure(false, 800, 16), (32 + 7 * 15 - 3, 32 + 7 * 15 - 3));
}
