use hoot::content::Catalog;
use hoot::engine::{Engine, GameState};
use hoot::model::{Choice, Game, Phase, Question};
use hoot::session::{constant_eq, hash_token, random_token, recovery_key, ClientCommand, ClientIdentity, CommandOutcome};

fn engine() -> Engine {
    let game = Game {
        id: "quiz".into(),
        title: "Quiz".into(),
        description: String::new(),
        questions: vec![Question::MultipleChoice {
            id: "q".into(),
            prompt: "P".into(),
            image: None,
            image_alt: None,
            time_limit_seconds: 10,
            reading_time_seconds: 5,
            double_points: false,
            options: vec![Choice { id: "a".into(), text: "A".into() }, Choice { id: "b".into(), text: "B".into() }],
            correct_option_id: "b".into(),
        }],
    };
    Engine::new(
        GameState::default(),
        Catalog { games: vec![game], file_path: "games.json".into(), media_root: "media".into() },
        vec!["http://10.0.0.1:8080".into()],
    )
}

#[test]
fn token_hashes_are_lowercase_sha256_hex() {
    assert_eq!(hash_token("token"), "3c469e9d6c5875d37a43f353d4f88e61fcf812c66eee3457465a40b0da4153e0");
    assert_eq!(hash_token(""), "e3b0c44298fc1c149afbf4c8996fb92427ae41e4649b934ca495991b7852b855");
    assert_ne!(hash_token("a"), hash_token("b"));
}

#[test]
fn constant_time_comparison_compares_texts() {
    assert!(constant_eq("secret", "secret"));
    assert!(!constant_eq("secret", "Secret"));
    assert!(!constant_eq("secret", "secret "));
    assert!(constant_eq("", ""));
}

#[test]
fn tokens_and_recovery_keys_have_their_shapes() {
    let t = random_token();
    assert_eq!(t.len(), 64);
    assert!(t.chars().all(|c| c.is_ascii_digit() || ('a'..='f').contains(&c)));
    assert_ne!(t, random_token());
    let k = recovery_key();
    assert_eq!(k.len(), 24);
    assert!(k.chars().all(|c| c.is_ascii_digit() || ('A'..='F').contains(&c)));
}

#[test]
fn first_claim_is_free_then_the_recovery_key_is_needed() {
    let mut engine = engine();
    let first = hash_token("first");
    engine.claim_host(first.clone(), None, "KEY").unwrap();
    assert_eq!(engine.state.host_token_hash.as_deref(), Some(first.as_str()));
    assert_eq!(
        engine.claim_host(hash_token("second"), None, "KEY").unwrap_err(),
        "The recovery key is not valid."
    );
    assert_eq!(
        engine.claim_host(hash_token("second"), Some("WRONG".into()), "KEY").unwrap_err(),
        "The recovery key is not valid."
    );
    engine.claim_host(hash_token("second"), Some("  KEY \n".into()), "KEY").unwrap();
    assert!(matches!(engine.authenticate("host", "second"), Some(ClientIdentity::Host(h)) if h == hash_token("second")));
    assert!(engine.authenticate("host", "first").is_none());
}

#[test]
fn transferred_host_connections_are_refused() {
    let mut engine = engine();
    engine.claim_host(hash_token("first"), None, "KEY").unwrap();
    let old = engine.authenticate("host", "first").unwrap();
    engine.claim_host(hash_token("second"), Some("KEY".into()), "KEY").unwrap();
    assert_eq!(
        engine.execute_command(&old, ClientCommand::HostSelectGame { game_id: "quiz".into() }, 0).unwrap_err(),
        "Host control has been transferred to another browser."
    );
    assert_eq!(engine.execute_command(&old, ClientCommand::Ping { client_time_ms: Some(5) }, 0), Ok(CommandOutcome::Broadcast));
}

#[test]
fn players_authenticate_with_their_token() {
    let mut engine = engine();
    let id = engine.join_player("Ada", hash_token("ada-token")).unwrap();
    assert!(matches!(engine.authenticate("player", "ada-token"), Some(ClientIdentity::Player(p)) if p == id));
    assert!(engine.authenticate("player", "other").is_none());
    assert!(engine.authenticate("host", "ada-token").is_none());
    assert!(engine.authenticate("admin", "ada-token").is_none());
}

#[test]
fn commands_are_routed_by_role() {
    let mut engine = engine();
    engine.claim_host(hash_token("h"), None, "KEY").unwrap();
    let host = engine.authenticate("host", "h").unwrap();
    let id = engine.join_player("Ada", hash_token("p")).unwrap();
    let player = ClientIdentity::Player(id.clone());

    assert_eq!(
        engine.execute_command(&player, ClientCommand::HostStart, 0).unwrap_err(),
        "This session is not allowed to use that command."
    );
    assert_eq!(
        engine.execute_command(&host, ClientCommand::SubmitFreeText { text: "x".into() }, 0).unwrap_err(),
        "This session is not allowed to use that command."
    );
    assert_eq!(engine.execute_command(&host, ClientCommand::HostReloadContent, 0), Ok(CommandOutcome::ReloadContent));
    assert_eq!(
        engine.execute_command(&host, ClientCommand::HostSelectGame { game_id: "quiz".into() }, 0),
        Ok(CommandOutcome::Broadcast)
    );
    engine.execute_command(&host, ClientCommand::HostStart, 1_000).unwrap();
    engine.execute_command(&host, ClientCommand::HostAdvance, 2_000).unwrap();
    assert!(matches!(engine.state.phase, Phase::Answering { started_at_ms: 2_000, .. }));
    engine
        .execute_command(&player, ClientCommand::SubmitMultipleChoice { option_id: "b".into() }, 2_000)
        .unwrap();
    assert!(matches!(engine.state.phase, Phase::Reveal { .. }));
    assert_eq!(engine.state.players.get(&id).unwrap().score, 1_000);
    assert_eq!(
        engine.execute_command(&host, ClientCommand::HostSetJoinUrl { url: "http://x".into() }, 0).unwrap_err(),
        "Choose one of the detected join URLs."
    );
}

#[test]
fn connections_are_counted_and_closing_undoes_opening() {
    let mut engine = engine();
    let id = engine.join_player("Ada", hash_token("p")).unwrap();
    let player = ClientIdentity::Player(id.clone());
    let host = ClientIdentity::Host(hash_token("h"));
    engine.connection_opened(&player);
    engine.connection_opened(&player);
    engine.connection_opened(&host);
    assert_eq!(engine.connected_players.count(&id), 2);
    assert_eq!(engine.host_connections, 1);
    engine.connection_closed(&player);
    assert_eq!(engine.connected_players.count(&id), 1);
    engine.connection_closed(&player);
    engine.connection_closed(&player);
    assert_eq!(engine.connected_players.count(&id), 0);
    engine.connection_closed(&host);
    engine.connection_closed(&host);
    assert_eq!(engine.host_connections, 0);
}
