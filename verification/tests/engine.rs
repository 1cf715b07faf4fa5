use hoot::content::Catalog;
use hoot::engine::{Engine, GameState};
use hoot::model::{Choice, Game, Phase, Question, SubmittedAnswer};

fn quiz(double_points: bool) -> Game {
    Game {
        id: "quiz".into(),
        title: "Quiz".into(),
        description: String::new(),
        questions: vec![Question::MultipleChoice {
            id: "secret-question".into(),
            prompt: "This must never reach players".into(),
            image: None,
            image_alt: None,
            time_limit_seconds: 10,
            reading_time_seconds: 5,
            double_points,
            options: vec![
                Choice { id: "a".into(), text: "Secret wrong".into() },
                Choice { id: "b".into(), text: "Secret right".into() },
            ],
            correct_option_id: "b".into(),
        }],
    }
}

fn engine(double_points: bool) -> Engine {
    Engine::new(
        GameState::default(),
        Catalog {
            games: vec![quiz(double_points)],
            file_path: "games.json".into(),
            media_root: "media".into(),
        },
        vec!["http://192.168.1.2:8080".into()],
    )
}

fn two_question_quiz() -> Game {
    let mut game = quiz(false);
    game.id = "two".into();
    game.questions.push(Question::FreeText {
        id: "capital".into(),
        prompt: "Capital of France?".into(),
        image: None,
        image_alt: None,
        time_limit_seconds: 20,
        reading_time_seconds: 0,
        double_points: false,
        accepted_answers: vec!["Paris".into()],
    });
    game
}

fn two_question_engine() -> Engine {
    Engine::new(
        GameState::default(),
        Catalog {
            games: vec![two_question_quiz()],
            file_path: "games.json".into(),
            media_root: "media".into(),
        },
        vec!["http://192.168.1.2:8080".into()],
    )
}

fn pick(option: &str) -> SubmittedAnswer {
    SubmittedAnswer::MultipleChoice { option_id: option.into() }
}

#[test]
fn server_clock_scores_and_redacts_player_payloads() {
    let mut engine = engine(true);
    let player_id = engine.join_player("Ada", "token".into()).unwrap();
    engine.select_game("quiz").unwrap();
    engine.start_game(1_000).unwrap();
    assert!(engine.tick(6_000).unwrap());

    let during = format!("{:?}", engine.player_snapshot(&player_id, 6_000).unwrap());
    assert!(!during.contains("This must never reach players"));
    assert!(!during.contains("Secret right"));
    assert!(during.contains("triangle"));

    engine
        .submit(&player_id, SubmittedAnswer::MultipleChoice { option_id: "b".into() }, 6_000)
        .unwrap();
    engine.tick(16_000).unwrap();
    let player = engine.state.players.get(&player_id).unwrap();
    assert_eq!(player.score, 2_000);
    assert_eq!(player.correct_count, 1);
    assert!(matches!(engine.state.phase, Phase::Reveal { .. }));
}

#[test]
fn late_joiner_waits_until_the_next_question() {
    let mut engine = engine(false);
    engine.join_player("First", "first".into()).unwrap();
    engine.select_game("quiz").unwrap();
    engine.start_game(0).unwrap();
    engine.tick(5_000).unwrap();
    let late = engine.join_player("Late", "late".into()).unwrap();
    let error = engine
        .submit(&late, SubmittedAnswer::MultipleChoice { option_id: "b".into() }, 6_000)
        .unwrap_err();
    assert!(error.contains("next question"));
}

#[test]
fn usernames_are_unique_without_case_sensitivity() {
    let mut engine = engine(false);
    engine.join_player("Sam", "one".into()).unwrap();
    assert!(engine.join_player("  sAM  ", "two".into()).is_err());
}

#[test]
fn answering_ends_early_once_every_eligible_player_has_answered() {
    let mut engine = engine(false);
    let player_id = engine.join_player("Ada", "token".into()).unwrap();
    engine.select_game("quiz").unwrap();
    engine.start_game(1_000).unwrap();
    assert!(engine.tick(6_000).unwrap());
    assert!(matches!(engine.state.phase, Phase::Answering { .. }));

    engine
        .submit(&player_id, SubmittedAnswer::MultipleChoice { option_id: "b".into() }, 6_100)
        .unwrap();

    assert!(matches!(engine.state.phase, Phase::Reveal { .. }));
}

#[test]
fn host_can_force_advance_through_time_based_phases() {
    let mut engine = engine(false);
    engine.join_player("Ada", "token".into()).unwrap();
    engine.select_game("quiz").unwrap();
    engine.start_game(1_000).unwrap();
    assert!(matches!(engine.state.phase, Phase::Reading { .. }));

    engine.advance_host(1_500).unwrap();
    assert!(matches!(engine.state.phase, Phase::Answering { .. }));

    engine.advance_host(1_600).unwrap();
    assert!(matches!(engine.state.phase, Phase::Reveal { .. }));

    engine.advance_host(1_700).unwrap();
    assert!(matches!(engine.state.phase, Phase::FinalLeaderboard));
}

#[test]
fn usernames_are_trimmed_and_checked() {
    let mut engine = engine(false);
    let id = engine.join_player("  Grace  ", "g".into()).unwrap();
    assert_eq!(engine.state.players.get(&id).unwrap().username, "Grace");
    assert_eq!(
        engine.join_player("   ", "x".into()).unwrap_err(),
        "Use a username between 1 and 24 characters."
    );
    assert_eq!(
        engine.join_player("abcdefghijklmnopqrstuvwxy", "x".into()).unwrap_err(),
        "Use a username between 1 and 24 characters."
    );
    assert_eq!(
        engine.join_player("bad\u{7}name", "x".into()).unwrap_err(),
        "Use a username between 1 and 24 characters."
    );
    assert_eq!(
        engine.join_player("GRACE", "x".into()).unwrap_err(),
        "That username is already in use on this Hoot."
    );
    assert!(engine.join_player("abcdefghijklmnopqrstuvwx", "y".into()).is_ok());
    assert_eq!(engine.state.players.len(), 2);
}

#[test]
fn each_change_bumps_the_revision() {
    let mut engine = engine(false);
    let r0 = engine.state.revision;
    engine.join_player("Ada", "t".into()).unwrap();
    assert_eq!(engine.state.revision, r0 + 1);
    engine.select_game("quiz").unwrap();
    assert_eq!(engine.state.revision, r0 + 2);
    assert!(engine.select_game("missing").is_err());
    assert_eq!(engine.state.revision, r0 + 2);
}

#[test]
fn selecting_and_starting_need_the_right_phase() {
    let mut engine = engine(false);
    assert_eq!(engine.start_game(0).unwrap_err(), "A game can only start from the lobby.");
    assert_eq!(engine.select_game("nope").unwrap_err(), "That game is not available.");
    engine.select_game("quiz").unwrap();
    assert!(matches!(&engine.state.phase, Phase::Lobby { game_id } if game_id == "quiz"));
    assert_eq!(
        engine.start_game(0).unwrap_err(),
        "At least one player must join before starting."
    );
    engine.join_player("Ada", "t".into()).unwrap();
    engine.start_game(0).unwrap();
    assert!(matches!(engine.state.phase, Phase::Reading { question_index: 0, deadline_ms: 5_000 }));
    assert_eq!(
        engine.select_game("quiz").unwrap_err(),
        "Finish the current game before selecting another."
    );
}

#[test]
fn answers_are_checked_before_they_count() {
    let mut engine = two_question_engine();
    let ada = engine.join_player("Ada", "a".into()).unwrap();
    let bob = engine.join_player("Bob", "b".into()).unwrap();
    assert_eq!(engine.submit(&ada, pick("a"), 0).unwrap_err(), "Answers are not open.");
    engine.select_game("two").unwrap();
    engine.start_game(0).unwrap();
    engine.tick(5_000).unwrap();
    assert_eq!(engine.submit("nobody", pick("a"), 5_000).unwrap_err(), "Player session was not found.");
    assert_eq!(
        engine.submit(&ada, SubmittedAnswer::FreeText { text: "x".into() }, 5_000).unwrap_err(),
        "That answer is not valid for this question."
    );
    assert_eq!(engine.submit(&ada, pick("z"), 5_000).unwrap_err(), "That answer is not valid for this question.");
    engine.submit(&ada, pick("a"), 6_000).unwrap();
    assert_eq!(engine.submit(&ada, pick("b"), 6_500).unwrap_err(), "Your first answer is already locked in.");
    assert_eq!(engine.submit(&bob, pick("b"), 15_000).unwrap_err(), "Time is up for this question.");
    engine.advance_host(15_000).unwrap();
    engine.advance_host(15_000).unwrap();
    engine.advance_host(15_000).unwrap();
    engine.tick(15_000).unwrap();
    assert!(matches!(engine.state.phase, Phase::Answering { question_index: 1, .. }));
    assert_eq!(
        engine.submit(&bob, SubmittedAnswer::FreeText { text: "   ".into() }, 15_000).unwrap_err(),
        "Enter an answer up to 120 characters."
    );
    assert_eq!(
        engine.submit(&bob, SubmittedAnswer::FreeText { text: "x".repeat(121) }, 15_000).unwrap_err(),
        "Enter an answer up to 120 characters."
    );
    assert!(engine.submit(&bob, SubmittedAnswer::FreeText { text: "y".repeat(120) }, 15_000).is_ok());
}

#[test]
fn the_clock_scores_a_question_and_the_host_moves_on() {
    let mut engine = two_question_engine();
    let ada = engine.join_player("Ada", "a".into()).unwrap();
    let bob = engine.join_player("Bob", "b".into()).unwrap();
    engine.select_game("two").unwrap();
    engine.start_game(0).unwrap();
    assert!(!engine.tick(4_999).unwrap());
    assert!(engine.tick(5_000).unwrap());
    // Answers open at the reading deadline, not at the tick.
    assert!(matches!(engine.state.phase, Phase::Answering { question_index: 0, started_at_ms: 5_000, deadline_ms: 15_000 }));
    engine.submit(&ada, pick("b"), 10_000).unwrap();
    assert!(matches!(engine.state.phase, Phase::Answering { .. }));
    assert!(engine.tick(15_000).unwrap());
    assert!(matches!(engine.state.phase, Phase::Reveal { question_index: 0 }));
    // Half the window: 1000 * (1 - 0.5 * 0.5) = 750.
    assert_eq!(engine.state.players.get(&ada).unwrap().score, 750);
    assert_eq!(engine.state.players.get(&bob).unwrap().score, 0);
    assert_eq!(engine.state.submissions[0].points, Some(750));
    assert_eq!(engine.state.submissions[0].correct, Some(true));

    engine.advance_host(16_000).unwrap();
    assert!(matches!(engine.state.phase, Phase::Leaderboard { question_index: 0 }));
    engine.advance_host(17_000).unwrap();
    // Zero reading time: the next question's reading ends at once.
    assert!(matches!(engine.state.phase, Phase::Reading { question_index: 1, deadline_ms: 17_000 }));
    assert!(engine.tick(17_000).unwrap());
    assert!(matches!(engine.state.phase, Phase::Answering { question_index: 1, .. }));
    engine.submit(&bob, SubmittedAnswer::FreeText { text: " paris ".into() }, 17_000).unwrap();
    engine.submit(&ada, SubmittedAnswer::FreeText { text: "Rome".into() }, 18_000).unwrap();
    assert!(matches!(engine.state.phase, Phase::Reveal { question_index: 1 }));
    assert_eq!(engine.state.players.get(&bob).unwrap().score, 1_000);
    engine.advance_host(20_000).unwrap();
    assert!(matches!(engine.state.phase, Phase::FinalLeaderboard));
    assert_eq!(
        engine.advance_host(21_000).unwrap_err(),
        "There is nothing for the host to advance right now."
    );
}

#[test]
fn rankings_order_by_score_then_speed_then_join_order() {
    let mut engine = two_question_engine();
    let ada = engine.join_player("Ada", "a".into()).unwrap();
    let bob = engine.join_player("Bob", "b".into()).unwrap();
    let cy = engine.join_player("Cy", "c".into()).unwrap();
    engine.select_game("two").unwrap();
    engine.start_game(0).unwrap();
    engine.tick(5_000).unwrap();
    engine.submit(&bob, pick("b"), 5_000).unwrap();
    engine.submit(&cy, pick("b"), 5_000).unwrap();
    engine.submit(&ada, pick("a"), 5_000).unwrap();
    let rankings = engine.rankings();
    let order: Vec<&str> = rankings.iter().map(|line| line.username.as_str()).collect();
    assert_eq!(order, vec!["Bob", "Cy", "Ada"]);
    let ranks: Vec<usize> = rankings.iter().map(|line| line.rank).collect();
    assert_eq!(ranks, vec![1, 2, 3]);
    assert!(rankings.iter().all(|line| line.rank_delta == 0));
}

#[test]
fn reload_only_between_games_and_lobby_falls_back_when_game_vanishes() {
    let mut engine = two_question_engine();
    engine.select_game("two").unwrap();
    let other = Catalog { games: vec![quiz(false)], file_path: "games.json".into(), media_root: "media".into() };
    engine.reload_catalog(Ok(other)).unwrap();
    assert!(matches!(engine.state.phase, Phase::Selection));
    assert_eq!(engine.catalog.games[0].id, "quiz");

    let revision = engine.state.revision;
    assert_eq!(engine.reload_catalog(Err("broken".into())).unwrap_err(), "broken");
    assert_eq!(engine.catalog.games[0].id, "quiz");
    assert_eq!(engine.state.revision, revision);

    engine.join_player("Ada", "a".into()).unwrap();
    engine.select_game("quiz").unwrap();
    engine.start_game(0).unwrap();
    let again = Catalog { games: vec![quiz(true)], file_path: "games.json".into(), media_root: "media".into() };
    assert_eq!(
        engine.reload_catalog(Ok(again)).unwrap_err(),
        "Content can only be reloaded between games."
    );
}

#[test]
fn advertised_url_must_be_a_detected_one() {
    let mut engine = engine(false);
    assert_eq!(
        engine.set_advertised_url("http://evil.example".into()).unwrap_err(),
        "Choose one of the detected join URLs."
    );
    engine.set_advertised_url("http://192.168.1.2:8080".into()).unwrap();
    assert_eq!(engine.state.advertised_url.as_deref(), Some("http://192.168.1.2:8080"));
}

#[test]
fn players_are_found_by_their_session_token_hash() {
    let mut engine = engine(false);
    let id = engine.join_player("Ada", "hash-1".into()).unwrap();
    assert_eq!(engine.player_by_token_hash("hash-1").unwrap().id, id);
    assert!(engine.player_by_token_hash("hash-2").is_none());
}

#[test]
fn current_question_index_follows_the_phase() {
    let mut engine = engine(false);
    assert_eq!(engine.current_question_index(), None);
    engine.join_player("Ada", "a".into()).unwrap();
    engine.select_game("quiz").unwrap();
    assert_eq!(engine.current_question_index(), None);
    engine.start_game(0).unwrap();
    assert_eq!(engine.current_question_index(), Some(0));
    engine.advance_host(1).unwrap();
    engine.advance_host(2).unwrap();
    engine.advance_host(3).unwrap();
    assert!(matches!(engine.state.phase, Phase::FinalLeaderboard));
    assert_eq!(engine.current_question_index(), Some(0));
}

#[test]
fn joined_players_get_fresh_random_identifiers() {
    let mut engine = engine(false);
    let a = engine.join_player("Ada", "a".into()).unwrap();
    let b = engine.join_player("Bob", "b".into()).unwrap();
    assert_ne!(a, b);
    assert_eq!(a.len(), 36);
    assert_eq!(a.chars().filter(|c| *c == '-').count(), 4);
    assert_eq!(engine.state.players.get(&a).unwrap().username, "Ada");
    assert_eq!(engine.state.players.get(&b).unwrap().joined_order, 1);
}

#[test]
fn join_with_a_chosen_identifier() {
    let mut engine = engine(false);
    assert_eq!(engine.join_player_with_id("Ada", "h".into(), "id-1".into()).unwrap(), "id-1");
    assert_eq!(engine.state.players.get("id-1").unwrap().token_hash, "h");
}

#[test]
fn names_are_trimmed_of_unicode_whitespace() {
    let mut engine = engine(false);
    let id = engine.join_player("\u{3000}Ann\u{a0}\u{2029}", "a".into()).unwrap();
    assert_eq!(engine.state.players.get(&id).unwrap().username, "Ann");
    for c in ['\u{9}', '\u{85}', '\u{1680}', '\u{2000}', '\u{200a}', '\u{202f}', '\u{205f}'] {
        let name = format!("{c}Bo{c}");
        assert_eq!(name.trim(), "Bo");
    }
    // A zero-width space is not whitespace, so it stays in the name.
    let zw = engine.join_player("\u{200b}Cy", "c".into()).unwrap();
    assert_eq!(engine.state.players.get(&zw).unwrap().username, "\u{200b}Cy");
}

#[test]
fn a_joined_player_gets_a_fresh_version_four_uuid() {
    let mut engine = engine(false);
    let ada = engine.join_player("Ada", "a".into()).unwrap();
    let bob = engine.join_player("Bob", "b".into()).unwrap();
    assert_ne!(ada, bob);
    for id in [&ada, &bob] {
        let chars: Vec<char> = id.chars().collect();
        assert_eq!(chars.len(), 36);
        for (i, c) in chars.iter().enumerate() {
            if [8, 13, 18, 23].contains(&i) {
                assert_eq!(*c, '-');
            } else {
                assert!(c.is_ascii_digit() || ('a'..='f').contains(c), "{id}");
            }
        }
        assert_eq!(chars[14], '4');
        assert!(['8', '9', 'a', 'b'].contains(&chars[19]));
    }
    assert!(engine.state.players.get(&ada).is_some());
}
