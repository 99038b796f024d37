use xr_corpus::catalog::DynamicCorpusSource;
use xr_corpus::corpus::CorpusActivation;
use xr_corpus::vrcx::{
    JoinLeaveEvent, RefreshOutcome, RoomSnapshot, VrcxIntegrationConfig, VrcxRuntimeSource,
    clean_term, location_region, multilingual_proper_name, player_scan_limit, push_unique,
    room_corpus, room_from_log, room_players, validate_vrcx_config,
};

fn event(event_type: &str, display_name: &str, user_id: &str) -> JoinLeaveEvent {
    JoinLeaveEvent {
        event_type: event_type.into(),
        display_name: display_name.into(),
        user_id: user_id.into(),
    }
}

fn room(world: &str, group: &str, region: &str, players: &[&str]) -> RoomSnapshot {
    RoomSnapshot {
        world_name: world.into(),
        group_name: group.into(),
        region: region.into(),
        players: players.iter().map(|p| (*p).to_owned()).collect(),
    }
}

#[test]
fn sqlite_snapshot_reconstructs_only_players_still_in_the_latest_room() {
    // The join/leave rows of the latest location, newest first, as the
    // game-log query returns them.
    let rows = vec![
        event("OnPlayerJoined", "MercyFan", "usr_m"),
        event("OnPlayerLeft", "Alice", "usr_a"),
        event("OnPlayerJoined", "Bob", "usr_b"),
        event("OnPlayerJoined", "Alice", "usr_a"),
    ];
    let room = room_from_log("Overwatch Hub", "Game Night", "wrld_new:2~region(jp)", &rows, 80);
    assert_eq!(room.world_name, "Overwatch Hub");
    assert_eq!(room.group_name, "Game Night");
    assert_eq!(room.region, "jp");
    assert_eq!(room.players, ["Bob", "MercyFan"]);
}

#[test]
fn clean_term_collapses_whitespace_commas_and_length() {
    assert_eq!(clean_term("  Game \t Night  ", 120), "Game Night");
    assert_eq!(clean_term("a,b", 120), "a b");
    assert_eq!(clean_term("abcdef", 3), "abc");
    assert_eq!(clean_term("ab ,cd", 3), "ab");
    assert_eq!(clean_term("", 10), "");
}

#[test]
fn location_region_reads_the_region_marker() {
    assert_eq!(location_region("wrld_new:2~region(jp)"), "jp");
    assert_eq!(location_region("wrld_x:1~private(usr)~region(eu)~nonce(1)"), "eu");
    assert_eq!(location_region("wrld_x:1~region(use"), "use");
    assert_eq!(location_region("wrld_x:1"), "");
    assert_eq!(location_region("~region(a very long region name that is cut)"), "a very long region name");
}

#[test]
fn push_unique_ignores_empty_and_ascii_case_duplicates() {
    let mut values = Vec::new();
    push_unique(&mut values, "Overwatch");
    push_unique(&mut values, "");
    push_unique(&mut values, "OVERWATCH");
    push_unique(&mut values, "Game Night");
    assert_eq!(values, ["Overwatch", "Game Night"]);
}

#[test]
fn player_scan_limit_is_clamped() {
    assert_eq!(player_scan_limit(1), 256);
    assert_eq!(player_scan_limit(80), 2_560);
    assert_eq!(player_scan_limit(256), 8_192);
    assert_eq!(player_scan_limit(usize::MAX), 8_192);
}

#[test]
fn room_players_stop_at_the_limit_and_skip_blank_names() {
    let rows = vec![
        event("OnPlayerJoined", "  ", "usr_blank"),
        event("OnPlayerJoined", "zed", ""),
        event("OnPlayerJoined", "ZED", ""),
        event("OnPlayerJoined", "amy", "usr_amy"),
        event("OnPlayerJoined", "Carl", "usr_c"),
    ];
    assert_eq!(room_players(&rows, 2), ["amy", "zed"]);
    assert_eq!(room_players(&rows, 80), ["amy", "Carl", "zed"]);
}

#[test]
fn multilingual_proper_name_repeats_the_value() {
    let term = multilingual_proper_name("VRChat").unwrap();
    assert_eq!(term.ordered_values.len(), 16);
    assert!(term.ordered_values.iter().all(|value| value == "VRChat"));
    assert!(multilingual_proper_name("   ").is_err());
}

#[test]
fn room_corpus_lists_unique_names_or_vrchat() {
    let corpus = room_corpus(&room("Hub", "hub", "jp", &["Bob", "bob", "Carol"])).unwrap();
    assert_eq!(corpus.id, "virtual-worlds.vrchat.runtime-room");
    assert_eq!(corpus.domain, "virtual-worlds");
    assert_eq!(corpus.subdomain, "vrchat");
    assert_eq!(corpus.title, "Current VRChat room");
    assert_eq!(corpus.priority, 1_000);
    assert_eq!(corpus.activation, CorpusActivation::Always);
    assert_eq!(corpus.triggers.len(), 1);
    assert_eq!(corpus.triggers[0].ordered_values[1], "VRChat");
    let names: Vec<&str> = corpus
        .terms
        .iter()
        .map(|term| term.ordered_values[0].as_str())
        .collect();
    assert_eq!(names, ["Hub", "jp", "Bob", "Carol"]);

    let empty = room_corpus(&room("", "", "", &[])).unwrap();
    assert_eq!(empty.terms.len(), 1);
    assert_eq!(empty.terms[0].ordered_values[0], "VRChat");
}

#[test]
fn vrcx_limits_are_checked_in_order() {
    assert!(validate_vrcx_config(&VrcxIntegrationConfig::default()).is_ok());
    let config = VrcxIntegrationConfig {
        snapshot_ttl_seconds: 4,
        max_players: 0,
        ..VrcxIntegrationConfig::default()
    };
    assert_eq!(
        validate_vrcx_config(&config).unwrap_err(),
        "integrations.vrcx.snapshot_ttl_seconds must be between 5 and 3600"
    );
    let config = VrcxIntegrationConfig { max_players: 257, ..VrcxIntegrationConfig::default() };
    assert_eq!(
        validate_vrcx_config(&config).unwrap_err(),
        "integrations.vrcx.max_players must be between 1 and 256"
    );
    let config = VrcxIntegrationConfig { poll_interval_ms: 60_001, ..VrcxIntegrationConfig::default() };
    assert_eq!(
        validate_vrcx_config(&config).unwrap_err(),
        "integrations.vrcx.poll_interval_ms must be between 500 and 60000"
    );
    assert!(VrcxRuntimeSource::new(config, ".").is_err());
}

#[test]
fn default_vrcx_config_values() {
    let config = VrcxIntegrationConfig::default();
    assert!(config.enabled);
    assert!(config.database_path.is_none());
    assert_eq!(config.snapshot_ttl_seconds, 30);
    assert_eq!(config.max_players, 80);
    assert_eq!(config.poll_interval_ms, 2_000);
}

#[test]
fn available_room_is_published_and_unavailable_withdraws_it() {
    let mut source = VrcxRuntimeSource::new(VrcxIntegrationConfig::default(), "/project").unwrap();
    let mut dynamic = DynamicCorpusSource::new();
    let status = source.status_response();
    assert!(status.enabled);
    assert!(!status.connected);
    assert_eq!(status.age_ms, None);

    source
        .apply_outcome(
            &mut dynamic,
            RefreshOutcome::Available {
                database_path: "/data/VRCX.sqlite3".into(),
                room: room("Overwatch Hub", "", "jp", &["Bob", "MercyFan"]),
            },
        )
        .unwrap();
    let corpora = dynamic.snapshot().unwrap();
    assert_eq!(corpora.len(), 1);
    assert_eq!(corpora[0].id, "virtual-worlds.vrchat.runtime-room");
    let status = source.status_response_at(u64::MAX);
    assert!(status.vrcx_running && status.vrchat_running && status.connected);
    assert_eq!(status.database_path, "/data/VRCX.sqlite3");
    assert_eq!(status.world_name, "Overwatch Hub");
    assert_eq!(status.player_count, 2);
    assert_eq!(status.term_count, 4);
    assert!(status.age_ms.is_some());
    assert_eq!(status.last_error, "");

    source.set_error_at("database locked", u64::MAX);
    let status = source.status_response();
    assert!(!status.connected);
    assert_eq!(status.last_error, "database locked");

    source
        .apply_outcome(
            &mut dynamic,
            RefreshOutcome::Unavailable {
                vrcx_running: true,
                vrchat_running: false,
                database_path: String::new(),
            },
        )
        .unwrap();
    assert!(dynamic.snapshot().unwrap().is_empty());
    let status = source.status_response();
    assert!(status.vrcx_running);
    assert!(!status.vrchat_running);
    assert!(!status.connected);
    assert_eq!(status.world_name, "");
    assert_eq!(status.age_ms, None);
}

#[test]
fn a_recent_error_keeps_a_live_room_connected() {
    let mut source = VrcxRuntimeSource::new(VrcxIntegrationConfig::default(), ".").unwrap();
    let mut dynamic = DynamicCorpusSource::new();
    source
        .apply_outcome(
            &mut dynamic,
            RefreshOutcome::Available {
                database_path: "VRCX.sqlite3".into(),
                room: room("World", "", "", &[]),
            },
        )
        .unwrap();
    source.set_error("transient failure");
    let status = source.status_response();
    assert!(status.connected);
    assert_eq!(status.last_error, "transient failure");
}
