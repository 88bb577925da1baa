use samrewritten::journal::{
    app_label, changes_hidden, is_this_account, page_end, picked_changes, put_back, refused,
    status_for, str_starts_with, tally_undo, title_for, undo_offered, ChangeKind, ChangeState, ChangeTarget,
    ImportSummary, Op, OperationSummary, Status, Title,
};
use std::collections::HashMap;

fn change(kind: ChangeKind, undoable: bool, reverted: bool) -> ChangeState {
    ChangeState { kind, undoable, reverted }
}

fn operation(op: Op, changes: Vec<ChangeState>) -> OperationSummary {
    OperationSummary { op, apps: 1, changes, reverted: false, account: 7 }
}

#[test]
fn titles_follow_the_achievements_first() {
    let unlock = ChangeKind::Achievement { after: true };
    let lock = ChangeKind::Achievement { after: false };
    let all_up = operation(Op::Other, vec![change(unlock, true, false), change(unlock, true, false)]);
    assert_eq!(title_for(&all_up), Title::Unlocked(2));
    let all_down = operation(Op::ResetApp, vec![change(lock, true, false), change(ChangeKind::IntStat, true, false)]);
    assert_eq!(title_for(&all_down), Title::Locked(1));
    let mixed = operation(Op::Import, vec![change(unlock, true, false), change(lock, true, false)]);
    assert_eq!(title_for(&mixed), Title::ChangedAchievements(2));
    let stats = operation(Op::StatEdit, vec![change(ChangeKind::IntStat, true, false); 3]);
    assert_eq!(title_for(&stats), Title::ChangedStats(3));
    assert_eq!(title_for(&operation(Op::BulkLock, vec![])), Title::Reset);
    assert_eq!(title_for(&operation(Op::BulkUnlock, vec![])), Title::UnlockedEverything);
    assert_eq!(title_for(&operation(Op::Import, vec![])), Title::Imported);
    assert_eq!(
        title_for(&operation(Op::Revert, vec![change(ChangeKind::Opaque, false, false)])),
        Title::ChangedThings(1)
    );
}

#[test]
fn the_subtitle_says_where_an_operation_stands() {
    let mut done = operation(Op::Other, vec![change(ChangeKind::IntStat, true, false)]);
    done.reverted = true;
    assert_eq!(status_for(&done, 7), Status::Undone);
    let partly = operation(Op::Other, vec![change(ChangeKind::IntStat, true, true)]);
    assert_eq!(status_for(&partly, 7), Status::PartlyUndone);
    let stuck = operation(Op::Other, vec![change(ChangeKind::Opaque, false, false)]);
    assert_eq!(status_for(&stuck, 7), Status::CannotUndo);
    let open = operation(Op::Other, vec![change(ChangeKind::IntStat, true, false)]);
    assert_eq!(status_for(&open, 9), Status::OtherAccount);
    assert_eq!(status_for(&open, 7), Status::Plain);
    assert_eq!(status_for(&open, 0), Status::Plain);
    assert!(is_this_account(0, 5));
    assert!(is_this_account(5, 0));
    assert!(!is_this_account(5, 6));
}

#[test]
fn an_undo_picks_what_can_still_be_put_back() {
    let changes = vec![
        change(ChangeKind::IntStat, true, false),
        change(ChangeKind::IntStat, false, false),
        change(ChangeKind::IntStat, true, true),
        change(ChangeKind::IntStat, true, false),
    ];
    assert_eq!(picked_changes(&changes, None), vec![0, 3]);
    assert_eq!(picked_changes(&changes, Some(3)), vec![3]);
    assert_eq!(picked_changes(&changes, Some(1)), Vec::<usize>::new());
}

#[test]
fn a_game_is_named_by_the_library_first() {
    let mut names = HashMap::new();
    names.insert(440u32, "Team Fortress 2".to_string());
    names.insert(10u32, String::new());
    assert_eq!(app_label(&names, 440, "TF2"), Some("Team Fortress 2".to_string()));
    assert_eq!(app_label(&names, 10, "Counter-Strike"), Some("Counter-Strike".to_string()));
    assert_eq!(app_label(&names, 20, ""), None);
}

#[test]
fn refusals_name_changes_by_their_head() {
    let problems = vec![
        "ach:WIN_ONE".to_string(),
        "stat:kills out of range".to_string(),
        "ach:WIN_TWOX".to_string(),
    ];
    assert!(refused(&problems, &ChangeTarget::Achievement("WIN_ONE".to_string())));
    assert!(refused(&problems, &ChangeTarget::Stat("kills".to_string())));
    assert!(!refused(&problems, &ChangeTarget::Achievement("WIN_TWO".to_string())));
    assert!(!refused(&problems, &ChangeTarget::Stat("deaths".to_string())));
    assert!(refused(&problems, &ChangeTarget::Opaque));
    assert_eq!(
        put_back(
            &vec![ChangeTarget::Achievement("WIN_ONE".to_string()), ChangeTarget::Stat("deaths".to_string())],
            &problems,
            false
        ),
        vec![false, true]
    );
    assert_eq!(put_back(&vec![ChangeTarget::Stat("deaths".to_string())], &problems, true), vec![false]);
}

fn summary(ach: usize, stats: usize, errors: &[&str]) -> ImportSummary {
    ImportSummary {
        achievements_applied: ach,
        stats_applied: stats,
        errors: errors.iter().map(|s| s.to_string()).collect(),
        skipped_protected: vec!["stat:x protected".to_string()],
        skipped_unwriteable: vec![],
    }
}

#[test]
fn an_undo_reply_is_tallied() {
    let fine: Result<Vec<(u32, Result<ImportSummary, String>)>, String> =
        Ok(vec![(440, Ok(summary(2, 1, &["ach:A refused"])))]);
    let (applied, problems, unaccounted) = tally_undo(&fine);
    assert_eq!(applied, 3);
    assert_eq!(problems, vec!["ach:A refused".to_string(), "stat:x protected".to_string()]);
    assert!(!unaccounted);

    let store: Result<Vec<(u32, Result<ImportSummary, String>)>, String> =
        Ok(vec![(440, Ok(summary(2, 0, &["store failed: busy"])))]);
    assert!(tally_undo(&store).2);

    let failed: Result<Vec<(u32, Result<ImportSummary, String>)>, String> =
        Ok(vec![(440, Err("gone".to_string()))]);
    let (applied, problems, unaccounted) = tally_undo(&failed);
    assert_eq!((applied, problems, unaccounted), (0, vec!["gone".to_string()], true));

    let empty: Result<Vec<(u32, Result<ImportSummary, String>)>, String> = Ok(vec![]);
    assert!(tally_undo(&empty).2);
    let broken: Result<Vec<(u32, Result<ImportSummary, String>)>, String> = Err("pipe".to_string());
    assert_eq!(tally_undo(&broken), (0, vec!["pipe".to_string()], true));
}

#[test]
fn rows_are_paged() {
    assert_eq!(page_end(0, 25, 30), 25);
    assert_eq!(page_end(25, 100, 30), 30);
    assert_eq!(changes_hidden(30), 5);
    assert_eq!(changes_hidden(3), 0);
    assert!(str_starts_with("store failed: x", "store failed"));
    assert!(!str_starts_with("store", "store failed"));
}

#[test]
fn a_reset_records_only_what_moves() {
    use_reset_candidates();
}

fn use_reset_candidates() {
    let achievements = vec![
        samrewritten::unlock_queue::QueueCandidate { id: "A".to_string(), achieved: true, permission: 0 },
        samrewritten::unlock_queue::QueueCandidate { id: "B".to_string(), achieved: false, permission: 0 },
        samrewritten::unlock_queue::QueueCandidate { id: "C".to_string(), achieved: true, permission: 2 },
        samrewritten::unlock_queue::QueueCandidate { id: "D".to_string(), achieved: true, permission: 0 },
    ];
    assert_eq!(samrewritten::journal::wiped_by_reset(&achievements), vec![0, 3]);
}

#[test]
fn an_undo_is_offered_only_for_what_can_be_put_back_here() {
    let ops = operation(Op::Other, vec![change(ChangeKind::IntStat, true, false), change(ChangeKind::IntStat, true, true)]);
    assert!(undo_offered(&ops, None, true, 7));
    assert!(!undo_offered(&ops, None, false, 7));
    assert!(undo_offered(&ops, Some(0), false, 7));
    assert!(!undo_offered(&ops, Some(1), true, 7));
    assert!(!undo_offered(&ops, Some(2), true, 7));
    // Another account cannot undo it; an unknown one can.
    assert!(!undo_offered(&ops, None, true, 8));
    assert!(undo_offered(&ops, None, true, 0));
}
