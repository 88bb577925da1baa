use samrewritten::progress::{
    has_protected_fields, import_totals, protected_listing, protected_positions, skip_protected,
    split_by_library, ImportReport, SavedPermissions,
};
use std::collections::HashSet;

fn saved(app_id: u32, achievements: &[i32], stats: &[i32]) -> SavedPermissions {
    SavedPermissions {
        app_id,
        achievement_permissions: achievements.to_vec(),
        stat_permissions: stats.to_vec(),
    }
}

#[test]
fn protected_fields_are_spotted() {
    assert!(!has_protected_fields(&saved(1, &[0, 0], &[0, 1, 4])));
    assert!(has_protected_fields(&saved(1, &[0, 2], &[])));
    assert!(has_protected_fields(&saved(1, &[], &[3])));
    assert!(!has_protected_fields(&saved(1, &[], &[])));
}

#[test]
fn saved_games_split_by_the_library() {
    let library: HashSet<u32> = HashSet::from([440, 620]);
    assert_eq!(split_by_library(&library, &vec![440, 10, 620, 20]), (vec![0, 2], vec![1, 3]));
}

#[test]
fn skipping_protected_games_drops_every_copy_of_them() {
    let games = vec![
        saved(440, &[0], &[]),
        saved(620, &[1], &[]),
        saved(440, &[], &[2]),
        saved(730, &[], &[]),
    ];
    assert_eq!(protected_positions(&games), vec![1, 2]);
    assert_eq!(skip_protected(&games), vec![3]);
    assert_eq!(protected_listing(12), (10, 2));
    assert_eq!(protected_listing(4), (4, 0));
}

#[test]
fn an_import_is_totalled() {
    let replies = vec![
        Some(ImportReport {
            achievements_applied: 3,
            stats_applied: 2,
            skipped_protected: 1,
            skipped_unwriteable: 0,
            errors: 1,
            reset_would_help: true,
        }),
        None,
        Some(ImportReport {
            achievements_applied: 1,
            stats_applied: 0,
            skipped_protected: 0,
            skipped_unwriteable: 4,
            errors: 0,
            reset_would_help: false,
        }),
    ];
    assert_eq!(import_totals(&replies), (4, 2, 1, 4, 2, 1));
}
