use hoot::content::Catalog;
use hoot::engine::{Engine, GameState};
use hoot::model::{Choice, Game, Question, SubmittedAnswer};
use hoot::session::{ClientCommand, ClientIdentity};

fn game(time_limit_seconds: u64, reading_time_seconds: u64) -> Game {
    Game {
        id: "quiz".into(),
        title: "Quiz".into(),
        description: String::new(),
        questions: vec![Question::MultipleChoice {
            id: "q".into(),
            prompt: "P".into(),
            image: None,
            image_alt: None,
            time_limit_seconds,
            reading_time_seconds,
            double_points: true,
            options: vec![Choice { id: "a".into(), text: "A".into() }, Choice { id: "b".into(), text: "B".into() }],
            correct_option_id: "b".into(),
        }],
    }
}

fn engine(g: Game) -> Engine {
    Engine::new(
        GameState::default(),
        Catalog { games: vec![g], file_path: "games.json".into(), media_root: "media".into() },
        vec![],
    )
}

#[test]
fn ordinary_operations_fit() {
    let mut engine = engine(game(10, 5));
    assert!(engine.can_join());
    let id = engine.join_player("Ada", "a".into()).unwrap();
    engine.select_game("quiz").unwrap();
    assert!(engine.can_start(1_000));
    engine.start_game(1_000).unwrap();
    assert!(engine.can_tick(6_000));
    assert!(engine.can_advance(6_000));
    engine.tick(6_000).unwrap();
    let answer = SubmittedAnswer::MultipleChoice { option_id: "b".into() };
    assert!(engine.can_submit(&id, &answer, 6_000));
    let player = ClientIdentity::Player(id.clone());
    assert!(engine.can_execute(&player, &ClientCommand::SubmitMultipleChoice { option_id: "b".into() }, 6_000));
    assert!(engine.can_show(&player));
    assert!(engine.can_show(&ClientIdentity::Host("nobody".into())));
}

#[test]
fn an_exhausted_join_counter_is_caught() {
    let mut engine = engine(game(10, 5));
    engine.state.next_join_order = u64::MAX;
    assert!(!engine.can_join());
}

#[test]
fn a_deadline_past_the_end_of_time_is_caught() {
    let mut engine = engine(game(10, 5));
    engine.join_player("Ada", "a".into()).unwrap();
    engine.select_game("quiz").unwrap();
    assert!(!engine.can_start(i64::MAX - 10));
    assert!(engine.can_start(i64::MAX - 5_000));
}

#[test]
fn a_score_that_would_overflow_is_caught() {
    let mut engine = engine(game(10, 5));
    let ada = engine.join_player("Ada", "a".into()).unwrap();
    let bob = engine.join_player("Bob", "b".into()).unwrap();
    engine.select_game("quiz").unwrap();
    engine.start_game(0).unwrap();
    engine.tick(5_000).unwrap();
    let mut player = engine.state.players.get(&ada).unwrap().duplicate();
    player.score = i64::MAX - 1_000;
    let position = engine.state.players.position(&ada).unwrap();
    engine.state.players.set(position, player);
    let right = SubmittedAnswer::MultipleChoice { option_id: "b".into() };
    let wrong = SubmittedAnswer::MultipleChoice { option_id: "a".into() };
    // Bob has not answered yet, so Ada's answer is not scored at once.
    assert!(engine.can_submit(&ada, &right, 5_000));
    engine.submit(&ada, right, 5_000).unwrap();
    // A wrong answer from Bob completes the question, and Ada's 2000 points do not fit.
    assert!(!engine.can_submit(&bob, &wrong, 5_000));
    assert!(engine.can_tick(5_001));
    assert!(!engine.can_tick(15_000));
    assert!(!engine.can_advance(6_000));
}

#[test]
fn a_wrong_answer_never_overflows_a_score() {
    let mut engine = engine(game(10, 5));
    let ada = engine.join_player("Ada", "a".into()).unwrap();
    engine.select_game("quiz").unwrap();
    engine.start_game(0).unwrap();
    engine.tick(5_000).unwrap();
    let mut player = engine.state.players.get(&ada).unwrap().duplicate();
    player.score = i64::MAX;
    let position = engine.state.players.position(&ada).unwrap();
    engine.state.players.set(position, player);
    let wrong = SubmittedAnswer::MultipleChoice { option_id: "a".into() };
    assert!(engine.can_submit(&ada, &wrong, 5_000));
    engine.submit(&ada, wrong, 5_000).unwrap();
    assert_eq!(engine.state.players.get(&ada).unwrap().score, i64::MAX);
}
