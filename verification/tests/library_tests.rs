use samrewritten::library::{AppIndex, AppRecord};

fn app(app_id: u32, loaded: bool, synthetic: bool) -> AppRecord {
    let mut app = AppRecord::new(app_id, "", false, None, None, None, None);
    app.set_counts(0, 0, loaded);
    app.is_synthetic = synthetic;
    app
}

#[test]
fn search_cards_are_not_part_of_the_library() {
    let apps = vec![app(1, false, false), app(2, true, false), app(3, false, true)];
    assert_eq!(AppIndex::new().progress(&apps), (1, 2));
}

#[test]
fn a_first_load_moves_the_tally_and_a_second_one_does_not() {
    let mut apps = vec![app(1, false, false), app(2, false, false)];
    let mut index = AppIndex::new();
    assert_eq!(index.progress(&apps), (0, 2));

    index.update(&mut apps, 1, 10, 4);
    assert_eq!(index.progress(&apps), (1, 2));

    index.update(&mut apps, 1, 10, 7);
    assert_eq!(index.progress(&apps), (1, 2));
}

#[test]
fn a_library_refresh_is_not_answered_from_the_old_one() {
    let mut apps = vec![app(1, true, false)];
    let mut index = AppIndex::new();
    assert_eq!(index.progress(&apps), (1, 1));
    let generation = index.generation();

    apps.clear();
    index.items_changed();
    apps.extend([app(4, false, false), app(5, false, false)]);
    index.items_changed();

    assert_eq!(index.progress(&apps), (0, 2));
    assert!(index.get(&apps, 1).is_none());
    assert!(index.get(&apps, 4).is_some());
    assert_ne!(index.generation(), generation);
}

fn keys(total: u32, unlocked: u32, loaded: bool) -> (Option<(u32, u32)>, u32) {
    let mut app = AppRecord::new(1, "", false, None, None, None, None);
    app.set_counts(total, unlocked, loaded);
    (app.completion(), app.remaining())
}

#[test]
fn an_app_still_loading_sorts_last_in_both_orders() {
    assert_eq!(keys(20, 5, false), (None, u32::MAX));
}

#[test]
fn an_app_without_achievements_sorts_last_in_both_orders() {
    assert_eq!(keys(0, 0, true), (None, u32::MAX));
}

#[test]
fn a_finished_app_is_fully_complete_but_has_nothing_left() {
    assert_eq!(keys(20, 20, true), (Some((20, 20)), u32::MAX));
}

#[test]
fn an_app_in_progress_carries_both_figures() {
    assert_eq!(keys(91, 90, true), (Some((90, 91)), 1));
    assert_eq!(keys(20, 0, true), (Some((0, 20)), 20));
}

use samrewritten::library::{
    app_visible, apply_idle_cap_delta, compare_apps, compare_completion, recompute_idle_cap, search_key,
    sort_needs_counts, sync_counts_state, FilterState, LoaderStep, Order,
};

fn named(app_id: u32, name: &str) -> AppRecord {
    AppRecord::new(app_id, name, false, Some(60), Some(1_700_000_000), Some(10), Some(4))
}

fn no_filters() -> FilterState {
    FilterState {
        junk: false,
        only_idling: false,
        hide_fully_unlocked: false,
        hide_never_launched: false,
        hide_no_unlocked: false,
        hide_without_achievements: false,
    }
}

#[test]
fn search_matches_the_lower_case_name() {
    let app = named(440, "Team Fortress 2");
    assert_eq!(app.lowercase_name, "team fortress 2");
    assert_eq!(search_key("FORT"), "fort");
    assert!(app_visible(&no_filters(), true, "fort", &app));
    assert!(!app_visible(&no_filters(), true, "portal", &app));
    assert!(app_visible(&no_filters(), true, "", &app));
}

#[test]
fn filters_hide_what_they_name() {
    let mut junk = named(1, "junk");
    junk.is_junk = true;
    let filters = FilterState { junk: true, ..no_filters() };
    assert!(!app_visible(&filters, true, "", &junk));
    let mut card = named(2, "App 2");
    card.is_synthetic = true;
    card.is_junk = true;
    assert!(app_visible(&filters, true, "zzz", &card));

    let mut done = named(3, "done");
    done.set_counts(10, 10, true);
    let hide_done = FilterState { hide_fully_unlocked: true, ..no_filters() };
    assert!(!app_visible(&hide_done, true, "", &done));
    // Until every game is read, the count filters hide nothing.
    assert!(app_visible(&hide_done, false, "", &done));
    assert!(hide_done.depends_on_counts());
    assert!(!no_filters().depends_on_counts());
}

#[test]
fn sorting_goes_by_mode_then_name() {
    let a = named(1, "Alpha");
    let mut b = named(2, "Beta");
    b.playtime_minutes = 600;
    assert_eq!(compare_apps("alphabetical", true, &a, &b), Order::Less);
    assert_eq!(compare_apps("playtime", true, &a, &b), Order::Greater);
    // The same completion: the names decide.
    assert_eq!(compare_apps("completion", true, &a, &b), Order::Less);
    // Count orders fall back to the name while counts load.
    assert_eq!(compare_apps("remaining", false, &b, &a), Order::Greater);
    assert_eq!(compare_apps("something", true, &b, &a), Order::Greater);
    assert!(sort_needs_counts("remaining"));
    assert!(!sort_needs_counts("playtime"));
}

#[test]
fn the_more_complete_game_sorts_first() {
    let mut a = named(1, "Alpha");
    let mut b = named(2, "Beta");
    a.set_counts(4, 1, true);
    b.set_counts(3, 2, true);
    assert_eq!(compare_apps("completion", true, &a, &b), Order::Greater);
    assert_eq!(compare_apps("completion", true, &b, &a), Order::Less);
    // Equal fractions over different totals tie, and the name decides.
    b.set_counts(8, 2, true);
    assert_eq!(compare_apps("completion", true, &a, &b), Order::Less);
    // A game without achievements sorts after any game with some.
    b.set_counts(0, 0, true);
    assert_eq!(compare_apps("completion", true, &a, &b), Order::Less);
    assert_eq!(compare_apps("completion", true, &b, &a), Order::Greater);
}

#[test]
fn completion_fractions_compare_by_value() {
    assert_eq!(compare_completion(Some((1, 3)), Some((2, 6))), Order::Equal);
    assert_eq!(compare_completion(Some((1, 3)), Some((1, 2))), Order::Less);
    assert_eq!(compare_completion(Some((u32::MAX, 1)), Some((u32::MAX - 1, 1))), Order::Greater);
    assert_eq!(compare_completion(Some((u32::MAX - 1, u32::MAX)), Some((u32::MAX - 2, u32::MAX - 1))), Order::Greater);
    assert_eq!(compare_completion(None, Some((0, 5))), Order::Less);
    assert_eq!(compare_completion(None, None), Order::Equal);
}

#[test]
fn the_counts_decide_what_runs_again() {
    let d = sync_counts_state(true, false, false, 3, 5, false, false);
    assert!(!d.ready);
    assert_eq!(d.loader, LoaderStep::QueueRemaining);
    let d = sync_counts_state(true, false, false, 5, 5, false, false);
    assert!(d.ready && d.refilter && !d.resort && d.clear_profile_wish);
    assert_eq!(d.loader, LoaderStep::Done);
    let d = sync_counts_state(false, false, false, 3, 5, false, true);
    assert_eq!(d.loader, LoaderStep::CancelBacklog);
    let d = sync_counts_state(false, true, false, 5, 5, true, true);
    assert!(d.resort);
}

#[test]
fn idling_is_capped() {
    let mut apps: Vec<AppRecord> = (0..9).map(|i| named(i, "x")).collect();
    for app in apps.iter_mut().take(8) {
        app.is_idling = true;
    }
    assert_eq!(recompute_idle_cap(&mut apps), 8);
    assert!(apps.iter().all(|a| !a.can_start_idling));
    let mut count = 8;
    // Dropping under the cap lets every game start idling again.
    apply_idle_cap_delta(&mut apps, &mut count, -1);
    assert_eq!(count, 7);
    assert!(apps.iter().all(|a| a.can_start_idling));
    // Reaching the cap stops them all.
    apply_idle_cap_delta(&mut apps, &mut count, 1);
    assert_eq!(count, 8);
    assert!(apps.iter().all(|a| !a.can_start_idling));
    // Moving within one side of the cap touches no game.
    apps[0].can_start_idling = true;
    count = 3;
    apply_idle_cap_delta(&mut apps, &mut count, 1);
    assert_eq!(count, 4);
    assert!(apps[0].can_start_idling && !apps[1].can_start_idling);
    count = 0;
    apply_idle_cap_delta(&mut apps, &mut count, -1);
    assert_eq!(count, 0);
    assert!(apps[0].can_start_idling && !apps[1].can_start_idling);
}

use samrewritten::library::{page_chrome, SearchHint};

#[test]
fn the_window_follows_the_page() {
    let list = page_chrome("list");
    assert!(list.sidebar_button_visible && list.sidebar_button_sensitive && list.refresh_enabled);
    assert!(list.may_auto_open && list.clear_search && !list.back_visible);
    assert_eq!(list.hint, Some(SearchHint::Apps));
    let app = page_chrome("app");
    assert!(!app.sidebar_button_visible && app.back_visible && !app.refresh_enabled);
    assert_eq!(app.hint, Some(SearchHint::Achievements));
    let profile = page_chrome("profile");
    assert!(!profile.search_sensitive && profile.back_visible && profile.hint.is_none());
    let loading = page_chrome("loading");
    assert!(!loading.clear_search && !loading.refresh_enabled && !loading.back_visible);
    let other = page_chrome("disconnected");
    assert!(other.refresh_enabled && !other.sidebar_button_sensitive && !other.may_auto_open);
}

#[test]
fn comparing_the_other_way_gives_the_opposite() {
    let a = named(1, "Alpha");
    let b = named(2, "Beta");
    for mode in ["alphabetical", "playtime", "last_played", "completion", "remaining", "id"] {
        let there = compare_apps(mode, true, &a, &b);
        let back = compare_apps(mode, true, &b, &a);
        let flipped = match there {
            Order::Less => Order::Greater,
            Order::Equal => Order::Equal,
            Order::Greater => Order::Less,
        };
        assert_eq!(back, flipped, "{mode}");
    }
}
