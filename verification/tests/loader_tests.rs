use samrewritten::loader::unread_ids;
use samrewritten::library::{AppIndex, AppRecord};
use samrewritten::loader::{apply_counts, settle_unknown, AchievementLoader, OrderedSet};
use std::collections::HashSet;

#[test]
fn an_ordered_set_keeps_insertion_order_and_no_repeats() {
    let mut set = OrderedSet::new();
    assert!(set.insert(3));
    assert!(set.insert(1));
    assert!(!set.insert(3));
    assert!(set.insert(2));
    assert!(set.contains(1));
    assert!(set.remove(1));
    assert!(!set.remove(1));
    assert_eq!(set.drain_front(5), vec![3, 2]);
    assert!(set.is_empty());
    set.insert(4);
    set.insert(5);
    set.retain_not_in(&HashSet::from([4]));
    assert_eq!(set.drain_front(1), vec![5]);
}

#[test]
fn prioritised_apps_are_read_first() {
    let mut loader = AchievementLoader::new();
    loader.queue_apps(&vec![1, 2, 3]);
    loader.prioritize(3);
    assert_eq!(loader.try_start_worker(), Some(0));
    assert_eq!(loader.try_start_worker(), None);
    let chunk = loader.drain_chunk(2);
    assert_eq!(chunk, vec![3, 1]);
    let (marked, force) = loader.begin_request(&chunk);
    assert!(marked.is_empty() && !force);
    // Apps being read are not queued again.
    loader.queue_apps(&vec![1, 4]);
    assert_eq!(loader.drain_chunk(10), vec![2, 4]);
    loader.end_request(&chunk);
}

#[test]
fn two_transport_failures_give_the_sweep_up() {
    let mut loader = AchievementLoader::new();
    loader.queue_apps(&vec![1, 2]);
    let chunk = loader.drain_chunk(2);
    assert!(!loader.transport_failed(&chunk));
    let chunk = loader.drain_chunk(2);
    assert_eq!(chunk, vec![1, 2]);
    assert!(loader.transport_failed(&chunk));
    loader.abandon_sweep();
    assert!(!loader.is_working());
}

#[test]
fn an_unanswered_app_is_retried_once() {
    let mut loader = AchievementLoader::new();
    assert!(loader.requeue_once(&vec![7]).is_empty());
    assert_eq!(loader.drain_chunk(5), vec![7]);
    assert_eq!(loader.requeue_once(&vec![7]), vec![7]);
    assert!(loader.drain_chunk(5).is_empty());
}

#[test]
fn a_write_is_settled_only_by_an_answer_asked_after_it() {
    let mut loader = AchievementLoader::new();
    loader.refresh_app(9);
    assert!(loader.is_dirty(9));
    let chunk = loader.drain_chunk(5);
    let (marked, force) = loader.begin_request(&chunk);
    assert!(force);
    // A second write while the first request is out.
    loader.refresh_app(9);
    loader.settle_marks(&marked, &vec![9]);
    assert!(loader.is_dirty(9));
    let chunk = loader.drain_chunk(5);
    let (marked, _) = loader.begin_request(&chunk);
    loader.settle_marks(&marked, &vec![9]);
    assert!(!loader.is_dirty(9));
}

fn unread(app_id: u32) -> AppRecord {
    AppRecord::new(app_id, "", false, None, None, None, None)
}

#[test]
fn answers_are_written_and_silence_is_reported() {
    let mut apps = vec![unread(1), unread(2), unread(3)];
    let mut index = AppIndex::new();
    let unanswered = apply_counts(&mut index, &mut apps, &vec![1, 2, 3], &vec![(1, 10, 4), (3, 0, 0)]);
    assert_eq!(unanswered, vec![2]);
    assert_eq!((apps[0].achievement_count, apps[0].unlocked_achievement_count), (10, 4));
    assert!(apps[0].achievements_loaded && apps[2].achievements_loaded);
    assert!(!apps[1].achievements_loaded);
    assert_eq!(index.progress(&apps), (2, 3));
    settle_unknown(&mut index, &mut apps, &vec![2, 1]);
    assert!(apps[1].achievements_loaded);
    assert_eq!(apps[1].achievement_count, 0);
    assert_eq!(apps[0].achievement_count, 10);
    assert_eq!(index.progress(&apps), (3, 3));
}

#[test]
fn local_counts_fill_unread_games_and_leave_written_ones() {
    let mut apps = vec![unread(1), unread(2), unread(3)];
    let mut index = AppIndex::new();
    let mut loader = AchievementLoader::new();
    loader.queue_apps(&vec![1, 2, 3]);
    loader.refresh_app(2);
    loader.hold_sweep();
    let (kick, applied) = loader.apply_local(&mut index, &mut apps, &vec![(1, 5, 5), (2, 8, 1)]);
    assert!(kick && applied);
    assert!(apps[0].achievements_loaded);
    assert!(!apps[1].achievements_loaded);
    assert_eq!(loader.drain_chunk(10), vec![2, 3]);
}

#[test]
fn a_rescan_ignores_the_files() {
    let mut apps = vec![unread(1)];
    let mut index = AppIndex::new();
    let mut loader = AchievementLoader::new();
    loader.start_rescan();
    let (kick, applied) = loader.apply_local(&mut index, &mut apps, &vec![(1, 5, 5)]);
    assert!(!kick && !applied);
    assert!(!apps[0].achievements_loaded);
    assert!(loader.is_rescanning());
    assert!(!loader.confirm_rescan());
    assert!(!loader.is_rescanning());
}

#[test]
fn a_rescan_with_nothing_to_read_ends_at_once() {
    let mut loader = AchievementLoader::new();
    assert_eq!(loader.rescan_all(&vec![], 3), None);
    assert!(!loader.is_rescanning());
    assert!(!loader.is_working());
    assert_eq!(loader.rescan_all(&vec![5, 6, 5], 3), Some(2));
    assert!(loader.is_rescanning());
    assert!(loader.is_stale(1));
    assert_eq!(loader.drain_chunk(10), vec![5, 6]);
    assert!(loader.finish_sweep());
}

#[test]
fn cancelling_the_sweep_requeues_what_is_left() {
    let mut loader = AchievementLoader::new();
    loader.prioritize(9);
    assert_eq!(loader.try_start_worker(), Some(0));
    assert_eq!(loader.cancel_sweep(&vec![1, 2], 7), Some(1));
    assert!(!loader.is_rescanning());
    assert_eq!(loader.drain_chunk(10), vec![1, 2]);
}

#[test]
fn a_held_sweep_stops_the_worker_until_released() {
    let mut loader = AchievementLoader::new();
    loader.queue_apps(&vec![1, 2]);
    assert_eq!(loader.try_start_worker(), Some(0));
    assert!(!loader.pause_if_held());
    loader.hold_sweep();
    assert!(loader.pause_if_held());
    // Held but not running: still counts as working.
    assert!(loader.is_working());
    assert!(loader.release_sweep());
    assert!(!loader.is_working());
    assert_eq!(loader.try_start_worker(), Some(0));
}

#[test]
fn a_cancelled_backlog_is_not_read() {
    let mut loader = AchievementLoader::new();
    loader.queue_apps(&vec![1, 2, 3]);
    loader.prioritize(2);
    loader.cancel_backlog();
    assert_eq!(loader.drain_chunk(10), vec![2]);
}

#[test]
fn a_success_between_failures_keeps_the_sweep_going() {
    let mut loader = AchievementLoader::new();
    loader.queue_apps(&vec![1]);
    let chunk = loader.drain_chunk(1);
    assert!(!loader.transport_failed(&chunk));
    loader.transport_succeeded();
    let chunk = loader.drain_chunk(1);
    assert!(!loader.transport_failed(&chunk));
}

#[test]
fn a_sweep_queues_the_games_not_read_yet_in_list_order() {
    let mut apps: Vec<AppRecord> = (1..=5).map(|i| AppRecord::new(i, "x", false, None, None, None, None)).collect();
    apps[1].set_counts(3, 1, true);
    apps[3].is_synthetic = true;
    assert_eq!(unread_ids(&apps), vec![1, 3, 5]);
    let mut loader = AchievementLoader::new();
    loader.queue_remaining(&unread_ids(&apps), 0);
    assert_eq!(loader.drain_chunk(10), vec![1, 3, 5]);
}
