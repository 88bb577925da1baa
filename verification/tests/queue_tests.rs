use samrewritten::unlock_queue::{
    copy_plan, hours_minutes, resolve_queue_to_objects, resolve_target_count, stageable,
    QueueCandidate, UnlockQueue,
};

fn ids(names: &[&str]) -> Vec<String> {
    names.iter().map(|s| s.to_string()).collect()
}

#[test]
fn toggling_queues_and_unqueues() {
    let mut queue = UnlockQueue::new();
    assert!(queue.is_empty());
    assert!(queue.toggle("A"));
    assert!(queue.toggle("B"));
    assert!(queue.toggle("C"));
    assert_eq!(queue.position("B"), 2);
    assert!(!queue.toggle("A"));
    assert_eq!(queue.snapshot(), ids(&["B", "C"]));
    assert_eq!(queue.position("B"), 1);
    assert_eq!(queue.position("C"), 2);
    assert_eq!(queue.position("A"), 0);
    assert_eq!(queue.len(), 2);
    queue.clear();
    assert!(queue.is_empty());
}

#[test]
fn a_copied_order_skips_what_is_not_shown() {
    let mut queue = UnlockQueue::new();
    queue.toggle("X");
    queue.set_order(&ids(&["A", "B", "C"]), &ids(&["C", "Z", "A"]));
    assert_eq!(queue.snapshot(), ids(&["C", "A"]));
}

fn candidate(id: &str, achieved: bool, permission: i32) -> QueueCandidate {
    QueueCandidate { id: id.to_string(), achieved, permission }
}

#[test]
fn auto_fill_takes_the_first_eligible() {
    let ranked = vec![
        candidate("common", false, 0),
        candidate("done", true, 0),
        candidate("protected", false, 2),
        candidate("rare", false, 0),
        candidate("rarest", false, 0),
    ];
    let mut queue = UnlockQueue::new();
    queue.auto_fill(&ranked, 2);
    assert_eq!(queue.snapshot(), ids(&["common", "rare"]));
    queue.auto_fill(&ranked, 10);
    assert_eq!(queue.snapshot(), ids(&["common", "rare", "rarest"]));
    queue.auto_fill(&ranked, 0);
    assert!(queue.is_empty());
}

#[test]
fn the_target_is_what_is_left_to_unlock() {
    assert_eq!(resolve_target_count("count", 10, 0, 4), 6);
    assert_eq!(resolve_target_count("count", -3, 0, 4), 0);
    assert_eq!(resolve_target_count("count", 3, 0, 4), 0);
    assert_eq!(resolve_target_count("percent", 99, 15, 5), 10);
}

#[test]
fn a_friends_timeline_keeps_what_can_still_be_written() {
    let source: Vec<(String, u32)> = vec![
        ("A".to_string(), 100),
        ("B".to_string(), 200),
        ("C".to_string(), 300),
        ("D".to_string(), 400),
    ];
    let model = vec![
        candidate("A", false, 0),
        candidate("B", true, 0),
        candidate("C", false, 1),
        candidate("D", false, 0),
    ];
    assert_eq!(copy_plan(&source, &model), vec![0, 3]);
    assert_eq!(hours_minutes(3_725), (1, 2));
}

#[test]
fn staged_ids_resolve_once_each() {
    let model = ids(&["A", "B", "C"]);
    assert_eq!(resolve_queue_to_objects(&model, &ids(&["C", "Q", "A", "C"])), vec![2, 0]);
}

#[test]
fn the_timed_unlock_starts_only_with_work_to_do() {
    let mut queue = UnlockQueue::new();
    assert!(!queue.start_enabled(1, 5));
    queue.toggle("A");
    assert!(queue.start_enabled(1, 5));
    assert!(!queue.start_enabled(5, 5));
    assert!(stageable(false, 0));
    assert!(!stageable(true, 0));
    assert!(!stageable(false, 1));
}

#[test]
fn toggling_twice_leaves_the_queue_as_it_was() {
    let mut queue = UnlockQueue::new();
    queue.toggle("A");
    queue.toggle("B");
    queue.toggle("C");
    queue.toggle("C");
    assert_eq!(queue.snapshot(), ids(&["A", "B"]));
    assert_eq!((queue.position("A"), queue.position("B")), (1, 2));
}
