use samrewritten::search::{
    friend_row_visible, next_to_count, parse_app_id, parse_steam_id, pasted_id, PastedId,
    ShownFriend, STEAMID64_BASE,
};
use std::collections::HashSet;

#[test]
fn app_ids_read_as_rust_reads_them() {
    for text in ["440", "+440", "0", "4294967295", "", "+", "-1", "44a", " 440", "4294967296"] {
        assert_eq!(parse_app_id(text), text.parse::<u32>().ok(), "{text}");
    }
}

#[test]
fn steam_ids_read_as_rust_reads_them_or_zero() {
    for text in ["76561197960265728", "18446744073709551615", "18446744073709551616", "x", ""] {
        assert_eq!(parse_steam_id(text), text.parse::<u64>().unwrap_or(0), "{text}");
    }
}

#[test]
fn the_pasted_row_shows_for_a_steam_id_only() {
    assert!(friend_row_visible(true, "76561197960265729", ""));
    assert!(!friend_row_visible(true, "12345", ""));
    assert!(!friend_row_visible(true, "gabe", ""));
    assert!(friend_row_visible(false, "", "gabe 76561197960265729"));
    assert!(friend_row_visible(false, "GaBe", "gabe 76561197960265729"));
    assert!(!friend_row_visible(false, "robin", "gabe 76561197960265729"));
}

#[test]
fn a_pasted_id_is_looked_up_once() {
    let id = STEAMID64_BASE + 1;
    let text = id.to_string();
    assert_eq!(pasted_id(&text, 0), (id, PastedId::Resolve, id));
    assert_eq!(pasted_id(&text, id), (id, PastedId::Unchanged, id));
    assert_eq!(pasted_id("123", id), (123, PastedId::Clear, 0));
}

#[test]
fn counts_are_asked_for_top_down() {
    let rows = vec![
        ShownFriend { position: 0, steam_id: 0, is_custom: true },
        ShownFriend { position: 5, steam_id: 11, is_custom: false },
        ShownFriend { position: 2, steam_id: 12, is_custom: false },
        ShownFriend { position: 1, steam_id: 13, is_custom: false },
    ];
    let cached: HashSet<u64> = HashSet::from([13]);
    assert_eq!(next_to_count(&rows, &cached), Some(12));
    let all: HashSet<u64> = HashSet::from([11, 12, 13]);
    assert_eq!(next_to_count(&rows, &all), None);
}

#[test]
fn a_typed_id_reads_back() {
    for id in [0u32, 7, 10, 440, 4_294_967_295] {
        assert_eq!(parse_app_id(&id.to_string()), Some(id));
    }
}
