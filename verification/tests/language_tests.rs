use samrewritten::language::{
    achievement_language_entries, bilingual_label, set_achievement_languages,
    set_achievement_languages_provisional, str_eq_ignore_ascii_case, tr_noop, AchievementLanguages,
};
use samrewritten::request::{GetAchievementCounts, LaunchApp, SteamCommand};

#[test]
fn the_language_menu_keeps_its_english_half() {
    assert_eq!(bilingual_label("Language", "Langue"), "Langue \u{2022} Language");
    assert_eq!(bilingual_label("Language", "Language"), "Language");
    assert_eq!(tr_noop("Jan"), "Jan");
}

fn rows(pairs: &[(&str, &str)]) -> Vec<(String, String)> {
    pairs.iter().map(|(a, b)| (a.to_string(), b.to_string())).collect()
}

#[test]
fn achievement_languages_come_in_table_order_then_unknown_codes() {
    let table = rows(&[("english", "English"), ("french", "Français"), ("german", "Deutsch")]);
    let shipped = vec!["German".to_string(), "klingon".to_string(), "english".to_string()];
    let (entries, extra) = achievement_language_entries(&table, &shipped, "french");
    assert_eq!(entries, rows(&[("english", "English"), ("german", "Deutsch"), ("klingon", "klingon")]));
    assert_eq!(extra, Some("Français".to_string()));
    let (_, none) = achievement_language_entries(&table, &shipped, "english");
    assert_eq!(none, None);
    assert!(str_eq_ignore_ascii_case("German", "german"));
}

#[test]
fn the_orchestrators_answer_wins_over_the_provisional_read() {
    let mut menu = AchievementLanguages::new();
    let langs = vec!["english".to_string()];
    assert!(set_achievement_languages_provisional(&menu, &langs));
    assert!(!set_achievement_languages(&mut menu, &[]));
    assert!(set_achievement_languages_provisional(&menu, &langs));
    assert!(set_achievement_languages(&mut menu, &langs));
    assert!(!set_achievement_languages_provisional(&menu, &langs));
    menu.reset();
    assert!(set_achievement_languages_provisional(&menu, &langs));
}

#[test]
fn requests_become_commands() {
    assert!(matches!(SteamCommand::from(LaunchApp { app_id: 440 }), SteamCommand::LaunchApp(440)));
    let counts = SteamCommand::from(GetAchievementCounts { app_ids: vec![1, 2] });
    assert!(matches!(counts, SteamCommand::GetAchievementCounts(ids) if ids == vec![1, 2]));
}
