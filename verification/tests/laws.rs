use hoot::content::{Catalog, MediaFacts};
use hoot::engine::{Engine, GameState};
use hoot::model::{Choice, Game, GamesFile, Phase, Question, SubmittedAnswer};
use hoot::session::{hash_token, ClientCommand, ClientIdentity};

fn mc(id: &str) -> Question {
    Question::MultipleChoice {
        id: id.into(),
        prompt: "P".into(),
        image: None,
        image_alt: None,
        time_limit_seconds: 10,
        reading_time_seconds: 2,
        double_points: false,
        options: vec![Choice { id: "a".into(), text: "A".into() }, Choice { id: "b".into(), text: "B".into() }],
        correct_option_id: "b".into(),
    }
}

fn fresh() -> Engine {
    Engine::new(
        GameState::default(),
        Catalog {
            games: vec![Game { id: "g".into(), title: "G".into(), description: String::new(), questions: vec![mc("q1"), mc("q2")] }],
            file_path: "games.json".into(),
            media_root: "media".into(),
        },
        vec!["http://10.0.0.1:8080".into()],
    )
}

fn right() -> SubmittedAnswer {
    SubmittedAnswer::MultipleChoice { option_id: "b".into() }
}

#[test]
fn names_stay_distinct_ignoring_case() {
    let mut engine = fresh();
    for name in ["Ann", "ann", "ANN ", "Bo", "bO", " Cy"] {
        let _ = engine.join_player(name, name.into());
    }
    let mut names: Vec<String> = Vec::new();
    for i in 0..engine.state.players.len() {
        names.push(engine.state.players.at(i).username.to_lowercase());
    }
    names.sort();
    assert_eq!(names, vec!["ann", "bo", "cy"]);
}

#[test]
fn a_late_joiner_may_answer_the_next_question() {
    let mut engine = fresh();
    let first = engine.join_player("First", "f".into()).unwrap();
    engine.select_game("g").unwrap();
    engine.start_game(0).unwrap();
    engine.tick(2_000).unwrap();
    let late = engine.join_player("Late", "l".into()).unwrap();
    assert_eq!(engine.state.players.get(&late).unwrap().eligible_from_question, 1);
    assert!(engine.submit(&late, right(), 2_000).is_err());
    engine.submit(&first, right(), 2_000).unwrap();
    assert!(matches!(engine.state.phase, Phase::Reveal { question_index: 0 }));
    engine.advance_host(3_000).unwrap();
    engine.advance_host(3_000).unwrap();
    engine.tick(5_000).unwrap();
    assert!(matches!(engine.state.phase, Phase::Answering { question_index: 1, .. }));
    engine.submit(&late, right(), 5_000).unwrap();
}

#[test]
fn the_first_answer_is_the_one_that_counts() {
    let mut engine = fresh();
    let ada = engine.join_player("Ada", "a".into()).unwrap();
    engine.join_player("Bob", "b".into()).unwrap();
    engine.select_game("g").unwrap();
    engine.start_game(0).unwrap();
    engine.tick(2_000).unwrap();
    engine.submit(&ada, SubmittedAnswer::MultipleChoice { option_id: "a".into() }, 2_000).unwrap();
    let revision = engine.state.revision;
    assert!(engine.submit(&ada, right(), 2_100).is_err());
    assert_eq!(engine.state.revision, revision);
    assert_eq!(engine.state.submissions.len(), 1);
}

#[test]
fn a_claim_keeps_the_event_and_moves_control() {
    let mut engine = fresh();
    engine.claim_host(hash_token("old"), None, "KEY").unwrap();
    let ada = engine.join_player("Ada", "a".into()).unwrap();
    engine.select_game("g").unwrap();
    engine.start_game(0).unwrap();
    let old = engine.authenticate("host", "old").unwrap();
    engine.claim_host(hash_token("new"), Some("KEY".into()), "KEY").unwrap();
    assert!(matches!(engine.state.phase, Phase::Reading { question_index: 0, .. }));
    assert!(engine.state.players.get(&ada).is_some());
    assert!(engine.authenticate("host", "new").is_some());
    assert!(engine.authenticate("host", "old").is_none());
    assert_eq!(
        engine.execute_command(&old, ClientCommand::HostAdvance, 1).unwrap_err(),
        "Host control has been transferred to another browser."
    );
}

#[test]
fn invalid_content_leaves_the_catalog_alone() {
    let mut engine = fresh();
    let broken = GamesFile { games: vec![Game { id: "x".into(), title: "X".into(), description: String::new(), questions: vec![] }] };
    let loaded = engine.catalog.reload(Ok(broken), &MediaFacts { root_found: true, images: vec![] });
    assert_eq!(loaded.as_ref().err().map(String::as_str), Some("game x needs a title and at least one question"));
    let revision = engine.state.revision;
    assert!(engine.reload_catalog(loaded).is_err());
    assert_eq!(engine.catalog.games[0].id, "g");
    assert_eq!(engine.state.revision, revision);
}

#[test]
fn remembered_ranks_show_no_change() {
    let mut engine = fresh();
    let ada = engine.join_player("Ada", "a".into()).unwrap();
    let bob = engine.join_player("Bob", "b".into()).unwrap();
    engine.select_game("g").unwrap();
    engine.start_game(0).unwrap();
    engine.tick(2_000).unwrap();
    engine.submit(&bob, right(), 2_000).unwrap();
    engine.submit(&ada, SubmittedAnswer::MultipleChoice { option_id: "a".into() }, 2_000).unwrap();
    engine.advance_host(3_000).unwrap();
    // Moving on from the leaderboard remembers the ranks.
    engine.advance_host(4_000).unwrap();
    assert!(engine.rankings().iter().all(|line| line.rank_delta == 0));
    assert_eq!(engine.state.players.get(&bob).unwrap().previous_rank, Some(1));
    assert_eq!(engine.state.players.get(&ada).unwrap().previous_rank, Some(2));
    engine.tick(6_000).unwrap();
    engine.submit(&ada, right(), 6_000).unwrap();
    engine.submit(&bob, SubmittedAnswer::MultipleChoice { option_id: "a".into() }, 6_000).unwrap();
    // Ada and Bob are now level on points; Ada answered her correct answer faster overall.
    let lines = engine.rankings();
    assert_eq!(lines[0].username, "Ada");
    assert_eq!(lines[0].rank_delta, 1);
    assert_eq!(lines[1].rank_delta, -1);
}

#[test]
fn the_clock_waits_for_deadlines() {
    let mut engine = fresh();
    engine.join_player("Ada", "a".into()).unwrap();
    assert!(!engine.tick(1_000_000).unwrap());
    engine.select_game("g").unwrap();
    engine.start_game(0).unwrap();
    let revision = engine.state.revision;
    assert!(!engine.tick(1_999).unwrap());
    assert_eq!(engine.state.revision, revision);
    // A late tick still opens answers at the reading deadline.
    assert!(engine.tick(5_000).unwrap());
    assert!(matches!(engine.state.phase, Phase::Answering { started_at_ms: 2_000, deadline_ms: 12_000, .. }));
    // And a very late tick runs both transitions.
    let mut other = fresh();
    other.join_player("Ada", "a".into()).unwrap();
    other.select_game("g").unwrap();
    other.start_game(0).unwrap();
    assert!(other.tick(50_000).unwrap());
    assert!(matches!(other.state.phase, Phase::Reveal { question_index: 0 }));
}

#[test]
fn closing_a_connection_undoes_opening_it() {
    let mut engine = fresh();
    let id = engine.join_player("Ada", "a".into()).unwrap();
    let me = ClientIdentity::Player(id.clone());
    let before = engine.connected_players.count(&id);
    engine.connection_opened(&me);
    engine.connection_closed(&me);
    assert_eq!(engine.connected_players.count(&id), before);
    assert_eq!(engine.host_connections, 0);
}

fn answered_by_two_of_three() -> Engine {
    let mut engine = fresh();
    let ada = engine.join_player("Ada", "a".into()).unwrap();
    let bob = engine.join_player("Bob", "b".into()).unwrap();
    engine.join_player("Cy", "c".into()).unwrap();
    engine.select_game("g").unwrap();
    engine.start_game(0).unwrap();
    engine.tick(2_000).unwrap();
    engine.submit(&ada, right(), 2_000).unwrap();
    engine.submit(&bob, SubmittedAnswer::MultipleChoice { option_id: "a".into() }, 7_000).unwrap();
    engine
}

#[test]
fn closing_the_answers_scores_them() {
    let mut by_host = answered_by_two_of_three();
    assert!(matches!(by_host.state.phase, Phase::Answering { question_index: 0, .. }));
    by_host.advance_host(8_000).unwrap();
    assert!(matches!(by_host.state.phase, Phase::Reveal { question_index: 0 }));
    assert_eq!(by_host.state.submissions[0].correct, Some(true));
    assert_eq!(by_host.state.submissions[0].points, Some(1_000));
    assert_eq!(by_host.state.submissions[1].correct, Some(false));
    assert_eq!(by_host.state.submissions[1].points, Some(0));

    let mut by_clock = answered_by_two_of_three();
    assert!(!by_clock.tick(11_999).unwrap());
    assert!(by_clock.tick(12_000).unwrap());
    assert!(matches!(by_clock.state.phase, Phase::Reveal { question_index: 0 }));
    assert_eq!(by_clock.state.revision, by_host.state.revision);
    assert_eq!(by_clock.state.submissions[0].points, Some(1_000));
    assert_eq!(by_clock.state.submissions[1].points, Some(0));
}
