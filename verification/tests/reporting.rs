use lobby_registry::compat;
use lobby_registry::compat::MediaKind;
use lobby_registry::rooms::{Member, Room, Rooms};

fn member(game: &str) -> Member {
    Member {
        nickname: String::new(),
        username: String::new(),
        game_name: game.to_string(),
        avatar_url: String::new(),
        game_id: 0,
    }
}

fn room(name: &str, game: &str, players: Vec<Member>) -> Room {
    Room {
        external_guid: String::new(),
        id: String::new(),
        address: None,
        name: name.to_string(),
        description: String::new(),
        owner: String::new(),
        port: 24872,
        preferred_game_name: game.to_string(),
        preferred_game_id: 1,
        max_players: 8,
        net_version: 1,
        has_password: false,
        players,
    }
}

fn lookup(table: &[(String, u64)], key: &str) -> Option<u64> {
    table.iter().find(|p| p.0 == key).map(|p| p.1)
}

#[test]
fn stats_counts_rooms_and_members_by_game() {
    let mut reg = Rooms::new(vec![]);
    let _ = reg.create(room("a1", "alpha", vec![member("alpha"), member("beta")]), 1, 100).unwrap();
    let _ = reg.create(room("a2", "alpha", vec![member("alpha")]), 2, 100).unwrap();
    let _ = reg.create(room("b1", "beta", vec![]), 3, 100).unwrap();
    let s = reg.stats();
    assert_eq!(s.room_count_by_game.len(), 2);
    assert_eq!(lookup(&s.room_count_by_game, "alpha"), Some(2));
    assert_eq!(lookup(&s.room_count_by_game, "beta"), Some(1));
    assert_eq!(s.member_count_by_game.len(), 2);
    assert_eq!(lookup(&s.member_count_by_game, "alpha"), Some(2));
    assert_eq!(lookup(&s.member_count_by_game, "beta"), Some(1));
}

#[test]
fn stats_of_an_empty_registry_are_empty() {
    let reg = Rooms::new(vec![]);
    let s = reg.stats();
    assert_eq!(s.room_count_by_game.len(), 0);
    assert_eq!(s.member_count_by_game.len(), 0);
}

#[test]
fn profile_check_answers_with_an_empty_object() {
    let (kind, body) = compat::get_profile();
    assert_eq!(kind, MediaKind::Json);
    assert_eq!(body, "{}");
}

#[test]
fn token_and_telemetry_posts_are_silenced() {
    let (kind, body) = compat::silence_jwt_post("tok".to_string(), "body".to_string());
    assert_eq!(kind, MediaKind::Plain);
    assert_eq!(body, "");
    let (kind, body) = compat::silence_jst_empty_post(vec![1, 2, 3]);
    assert_eq!(kind, MediaKind::Plain);
    assert_eq!(body, "");
    let (kind, body) = compat::silence_telemetry();
    assert_eq!(kind, MediaKind::Plain);
    assert_eq!(body, "");
}

#[test]
fn token_retrieval_keeps_the_historical_media_kind() {
    let (kind, _) = compat::ok_for_token_retrieval("ignored".to_string());
    assert_eq!(kind, MediaKind::Html);
    let (kind, _) = compat::ok_for_pkey_retrieval();
    assert_eq!(kind, MediaKind::Plain);
}
