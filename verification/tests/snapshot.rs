use hoot::content::Catalog;
use hoot::engine::{Engine, GameState};
use hoot::model::{Choice, Game, Phase, Question, SubmittedAnswer};
use hoot::session::{ClientIdentity};
use hoot::snapshot::{
    answer_result, host_question, AnswerReveal, Controls, Distribution, HostQuestion, Snapshot,
};

fn pictured_game() -> Game {
    Game {
        id: "g".into(),
        title: "Geography".into(),
        description: "Maps".into(),
        questions: vec![
            Question::MultipleChoice {
                id: "q1".into(),
                prompt: "Largest ocean?".into(),
                image: Some("ocean.png".into()),
                image_alt: Some("An ocean".into()),
                time_limit_seconds: 10,
                reading_time_seconds: 5,
                double_points: false,
                options: vec![
                    Choice { id: "atl".into(), text: "Atlantic".into() },
                    Choice { id: "pac".into(), text: "Pacific".into() },
                    Choice { id: "ind".into(), text: "Indian".into() },
                ],
                correct_option_id: "pac".into(),
            },
            Question::FreeText {
                id: "q2".into(),
                prompt: "Capital of Italy?".into(),
                image: None,
                image_alt: None,
                time_limit_seconds: 10,
                reading_time_seconds: 5,
                double_points: false,
                accepted_answers: vec!["Rome".into(), "Roma".into()],
            },
        ],
    }
}

fn engine() -> Engine {
    Engine::new(
        GameState::default(),
        Catalog { games: vec![pictured_game()], file_path: "games.json".into(), media_root: "media".into() },
        vec!["http://10.0.0.1:8080".into(), "http://192.168.0.9:8080".into()],
    )
}

#[test]
fn host_sees_games_roster_question_and_spread() {
    let mut engine = engine();
    let ada = engine.join_player("Ada", "a".into()).unwrap();
    let bob = engine.join_player("Bob", "b".into()).unwrap();
    let _cy = engine.join_player("Cy", "c".into()).unwrap();
    engine.select_game("g").unwrap();
    engine.start_game(0).unwrap();
    engine.tick(5_000).unwrap();
    engine.submit(&ada, SubmittedAnswer::MultipleChoice { option_id: "pac".into() }, 5_000).unwrap();
    engine.submit(&bob, SubmittedAnswer::MultipleChoice { option_id: "atl".into() }, 6_000).unwrap();

    let host = engine.host_snapshot(7_000);
    assert_eq!(host.server_time_ms, 7_000);
    assert_eq!(host.revision, engine.state.revision);
    assert_eq!(host.games.len(), 1);
    assert_eq!(host.games[0].title, "Geography");
    assert_eq!(host.games[0].question_count, 2);
    assert_eq!(host.players.len(), 3);
    assert!(host.players.iter().all(|entry| !entry.connected));
    assert_eq!(host.question_number, Some(1));
    assert_eq!(host.question_count, Some(2));
    assert_eq!(host.join_url.as_deref(), Some("http://10.0.0.1:8080"));
    assert!(!host.host_connected);
    match host.question.unwrap() {
        HostQuestion::MultipleChoice { image_url, options, correct_option_id, .. } => {
            assert_eq!(image_url.as_deref(), Some("/media/ocean.png"));
            assert_eq!(correct_option_id, "pac");
            assert_eq!(options.len(), 3);
            assert_eq!((options[0].number, options[0].shape.as_str(), options[0].color.as_str()), (1, "triangle", "red"));
            assert_eq!((options[1].number, options[1].shape.as_str(), options[1].color.as_str()), (2, "diamond", "blue"));
            assert_eq!((options[2].number, options[2].shape.as_str(), options[2].color.as_str()), (3, "circle", "amber"));
            assert!(options[1].correct && !options[0].correct && !options[2].correct);
        },
        other => panic!("unexpected question {other:?}"),
    }
    match host.distribution.unwrap() {
        Distribution::MultipleChoice { options, unanswered } => {
            let counts: Vec<usize> = options.iter().map(|o| o.count).collect();
            assert_eq!(counts, vec![1, 1, 0]);
            assert_eq!(unanswered, 1);
            assert_eq!(options[1].text, "Pacific");
        },
        other => panic!("unexpected distribution {other:?}"),
    }
}

#[test]
fn player_sees_pad_then_verdict_and_who_is_ahead() {
    let mut engine = engine();
    let ada = engine.join_player("Ada", "a".into()).unwrap();
    let bob = engine.join_player("Bob", "b".into()).unwrap();
    engine.select_game("g").unwrap();
    engine.start_game(0).unwrap();
    engine.tick(5_000).unwrap();

    let before = engine.player_snapshot(&bob, 5_000).unwrap();
    assert!(before.eligible);
    assert!(!before.submitted);
    assert!(before.result.is_none());
    match before.controls.unwrap() {
        Controls::MultipleChoice { options } => {
            let ids: Vec<&str> = options.iter().map(|o| o.id.as_str()).collect();
            assert_eq!(ids, vec!["atl", "pac", "ind"]);
            assert_eq!(options[2].shape, "circle");
        },
        other => panic!("unexpected controls {other:?}"),
    }

    engine.submit(&ada, SubmittedAnswer::MultipleChoice { option_id: "pac".into() }, 5_000).unwrap();
    engine.submit(&bob, SubmittedAnswer::MultipleChoice { option_id: "ind".into() }, 6_000).unwrap();
    assert!(matches!(engine.state.phase, Phase::Reveal { .. }));

    let after = engine.player_snapshot(&bob, 6_500).unwrap();
    assert!(after.submitted);
    assert!(after.controls.is_none());
    let result = after.result.unwrap();
    assert_eq!(result.correct, Some(false));
    assert_eq!(result.points, Some(0));
    match result.answer {
        AnswerReveal::MultipleChoice { selected, correct } => {
            assert_eq!(selected, Some(3));
            assert_eq!(correct, Some(2));
        },
        other => panic!("unexpected answer {other:?}"),
    }
    assert_eq!(after.me.rank, Some(2));
    let ahead = after.ahead.unwrap();
    assert_eq!(ahead.username, "Ada");
    assert_eq!(ahead.gap, 1_000);
    assert_eq!(after.player_count, 2);

    let leader = engine.player_snapshot(&ada, 6_500).unwrap();
    assert_eq!(leader.me.rank, Some(1));
    assert_eq!(leader.me.score, 1_000);
    assert!(leader.ahead.is_none());
}

#[test]
fn unknown_player_gets_an_error() {
    let engine = engine();
    assert_eq!(engine.player_snapshot("ghost", 0).unwrap_err(), "Player session was not found.");
}

#[test]
fn a_transferred_host_gets_no_picture() {
    let mut engine = engine();
    engine.state.host_token_hash = Some("new".into());
    assert!(matches!(engine.snapshot_for(&ClientIdentity::Host("new".into()), 1), Ok(Snapshot::Host(_))));
    assert_eq!(
        engine.snapshot_for(&ClientIdentity::Host("old".into()), 1).unwrap_err(),
        "host control was transferred"
    );
    assert_eq!(
        engine.snapshot_for(&ClientIdentity::Player("ghost".into()), 1).unwrap_err(),
        "Player session was not found."
    );
}

#[test]
fn free_text_spread_and_reveal() {
    let mut engine = engine();
    let ada = engine.join_player("Ada", "a".into()).unwrap();
    let bob = engine.join_player("Bob", "b".into()).unwrap();
    engine.select_game("g").unwrap();
    engine.start_game(0).unwrap();
    engine.advance_host(1).unwrap();
    engine.advance_host(2).unwrap();
    engine.advance_host(3).unwrap();
    engine.advance_host(4).unwrap();
    engine.advance_host(5).unwrap();
    assert!(matches!(engine.state.phase, Phase::Answering { question_index: 1, .. }));
    engine.submit(&ada, SubmittedAnswer::FreeText { text: "roma".into() }, 5).unwrap();
    engine.submit(&bob, SubmittedAnswer::FreeText { text: "Milan".into() }, 5).unwrap();
    match engine.host_snapshot(6).distribution.unwrap() {
        Distribution::FreeText { correct, incorrect, unanswered } => {
            assert_eq!((correct, incorrect, unanswered), (1, 1, 0));
        },
        other => panic!("unexpected distribution {other:?}"),
    }
    let reveal = engine.player_snapshot(&bob, 6).unwrap().result.unwrap();
    match reveal.answer {
        AnswerReveal::FreeText { submitted, accepted } => {
            assert_eq!(submitted, "Milan");
            assert_eq!(accepted.as_deref(), Some("Rome"));
        },
        other => panic!("unexpected answer {other:?}"),
    }
}

#[test]
fn host_question_without_image_and_answer_kinds_that_do_not_fit() {
    let game = pictured_game();
    match host_question(&game.questions[1]) {
        HostQuestion::FreeText { image_url, accepted_answers, .. } => {
            assert_eq!(image_url, None);
            assert_eq!(accepted_answers, vec!["Rome".to_string(), "Roma".to_string()]);
        },
        other => panic!("unexpected question {other:?}"),
    }
    assert!(matches!(
        answer_result(&SubmittedAnswer::FreeText { text: "x".into() }, Some(&game.questions[0])),
        AnswerReveal::Mismatched
    ));
    assert!(matches!(
        answer_result(&SubmittedAnswer::MultipleChoice { option_id: "x".into() }, None),
        AnswerReveal::Mismatched
    ));
    assert!(matches!(
        answer_result(&SubmittedAnswer::MultipleChoice { option_id: "gone".into() }, Some(&game.questions[0])),
        AnswerReveal::MultipleChoice { selected: None, correct: Some(2) }
    ));
}

#[test]
fn late_joiner_has_no_pad_until_the_next_question() {
    let mut engine = engine();
    engine.join_player("Ada", "a".into()).unwrap();
    engine.select_game("g").unwrap();
    engine.start_game(0).unwrap();
    engine.tick(5_000).unwrap();
    let late = engine.join_player("Late", "l".into()).unwrap();
    let picture = engine.player_snapshot(&late, 5_000).unwrap();
    assert!(!picture.eligible);
    assert!(picture.controls.is_none());
}
