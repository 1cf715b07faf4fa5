use hoot::content::{Catalog, ImageFacts, MediaFacts};
use hoot::model::{Choice, Game, GamesFile, Question};

fn mc(id: &str, options: &[(&str, &str)], correct: &str) -> Question {
    Question::MultipleChoice {
        id: id.into(),
        prompt: "Pick one".into(),
        image: None,
        image_alt: None,
        time_limit_seconds: 20,
        reading_time_seconds: 5,
        double_points: false,
        options: options.iter().map(|(i, t)| Choice { id: (*i).into(), text: (*t).into() }).collect(),
        correct_option_id: correct.into(),
    }
}

fn ft(id: &str, answers: &[&str]) -> Question {
    Question::FreeText {
        id: id.into(),
        prompt: "Type it".into(),
        image: None,
        image_alt: None,
        time_limit_seconds: 20,
        reading_time_seconds: 5,
        double_points: false,
        accepted_answers: answers.iter().map(|a| (*a).into()).collect(),
    }
}

fn game(id: &str, questions: Vec<Question>) -> Game {
    Game { id: id.into(), title: "Title".into(), description: String::new(), questions }
}

fn no_media() -> MediaFacts {
    MediaFacts { root_found: true, images: vec![] }
}

fn load(games: Vec<Game>, media: &MediaFacts) -> Result<Catalog, String> {
    Catalog::load(Ok(GamesFile { games }), "content/games.json".into(), "content/media".into(), media)
}

fn good() -> Vec<Game> {
    vec![
        game("one", vec![mc("q1", &[("a", "A"), ("b", "B")], "b"), ft("q2", &["Paris"])]),
        game("two", vec![ft("q1", &["x"])]),
    ]
}

fn with_image(image: &str, alt: Option<&str>) -> Vec<Game> {
    let mut q = mc("pic", &[("a", "A"), ("b", "B")], "a");
    if let Question::MultipleChoice { image: i, image_alt: a, .. } = &mut q {
        *i = Some(image.into());
        *a = alt.map(|s| s.to_string());
    }
    vec![game("g", vec![q])]
}

fn facts(name: &str, found: bool, inside: bool, meta: bool, file: bool, len: u64) -> MediaFacts {
    MediaFacts {
        root_found: true,
        images: vec![ImageFacts {
            name: name.into(),
            full_path: format!("content/media/{name}"),
            found,
            inside_root: inside,
            metadata_found: meta,
            is_file: file,
            len,
        }],
    }
}

#[test]
fn a_valid_catalog_loads_and_finds_games() {
    let catalog = load(good(), &no_media()).unwrap();
    assert_eq!(catalog.games.len(), 2);
    assert_eq!(catalog.file_path, "content/games.json");
    assert_eq!(catalog.media_root, "content/media");
    assert_eq!(catalog.game("two").unwrap().id, "two");
    assert!(catalog.game("three").is_none());
}

#[test]
fn read_and_parse_failures_pass_through() {
    let r = Catalog::load(Err("invalid JSON in games.json".into()), "games.json".into(), "media".into(), &no_media());
    assert_eq!(r.unwrap_err(), "invalid JSON in games.json");
    let catalog = load(good(), &no_media()).unwrap();
    let again = catalog.reload(Err("could not read game file content/games.json".into()), &no_media());
    assert_eq!(again.unwrap_err(), "could not read game file content/games.json");
    let fresh = catalog.reload(Ok(GamesFile { games: vec![game("solo", vec![ft("q", &["y"])])] }), &no_media()).unwrap();
    assert_eq!(fresh.file_path, "content/games.json");
    assert_eq!(fresh.games[0].id, "solo");
}

#[test]
fn catalog_rules_and_their_messages() {
    let cases: Vec<(Vec<Game>, &str)> = vec![
        (vec![], "games must contain at least one game"),
        (vec![game(" ", vec![ft("q", &["a"])])], "game IDs must be non-empty and unique (problem: \" \")"),
        (
            vec![game("a", vec![ft("q", &["a"])]), game("a", vec![ft("q", &["a"])])],
            "game IDs must be non-empty and unique (problem: \"a\")",
        ),
        (vec![game("a", vec![])], "game a needs a title and at least one question"),
        (vec![game("a", vec![ft("q", &["a"]), ft("q", &["b"])])], "question IDs in game a must be non-empty and unique"),
        (vec![game("a", vec![mc("q", &[("a", "A")], "a")])], "question q must have 2 to 4 options"),
        (
            vec![game("a", vec![mc("q", &[("a", "A"), ("b", "B"), ("c", "C"), ("d", "D"), ("e", "E")], "a")])],
            "question q must have 2 to 4 options",
        ),
        (vec![game("a", vec![mc("q", &[("a", "A"), ("a", "B")], "a")])], "question q has an empty or duplicate option"),
        (vec![game("a", vec![mc("q", &[("a", "A"), ("b", " ")], "a")])], "question q has an empty or duplicate option"),
        (vec![game("a", vec![mc("q", &[("a", "A"), ("b", "B")], "c")])], "question q correctOptionId does not name an option"),
        (vec![game("a", vec![ft("q", &[])])], "question q needs non-empty acceptedAnswers"),
        (vec![game("a", vec![ft("q", &["ok", "  "])])], "question q needs non-empty acceptedAnswers"),
    ];
    for (games, message) in cases {
        assert_eq!(load(games, &no_media()).unwrap_err(), message);
    }
}

#[test]
fn time_limits_reading_time_and_prompt() {
    let mut q = ft("q", &["a"]);
    if let Question::FreeText { time_limit_seconds, .. } = &mut q {
        *time_limit_seconds = 4;
    }
    assert_eq!(load(vec![game("a", vec![q])], &no_media()).unwrap_err(), "question q timeLimitSeconds must be between 5 and 300");
    let mut q = ft("q", &["a"]);
    if let Question::FreeText { time_limit_seconds, .. } = &mut q {
        *time_limit_seconds = 301;
    }
    assert!(load(vec![game("a", vec![q])], &no_media()).is_err());
    let mut q = ft("q", &["a"]);
    if let Question::FreeText { reading_time_seconds, .. } = &mut q {
        *reading_time_seconds = 61;
    }
    assert_eq!(load(vec![game("a", vec![q])], &no_media()).unwrap_err(), "question q readingTimeSeconds must be between 0 and 60");
    let mut q = ft("q", &["a"]);
    if let Question::FreeText { prompt, .. } = &mut q {
        *prompt = "  ".into();
    }
    assert_eq!(load(vec![game("a", vec![q])], &no_media()).unwrap_err(), "question q needs a prompt");
}

#[test]
fn image_rules() {
    assert_eq!(
        load(with_image("map.png", None), &facts("map.png", true, true, true, true, 10)).unwrap_err(),
        "question pic must provide imageAlt when image is present"
    );
    assert_eq!(
        load(with_image("../map.png", Some("Map")), &facts("../map.png", true, true, true, true, 10)).unwrap_err(),
        "question pic image path must stay inside the media directory"
    );
    assert_eq!(
        load(with_image("/etc/map.png", Some("Map")), &facts("/etc/map.png", true, true, true, true, 10)).unwrap_err(),
        "question pic image path must stay inside the media directory"
    );
    assert_eq!(
        load(with_image("map.bmp", Some("Map")), &facts("map.bmp", true, true, true, true, 10)).unwrap_err(),
        "question pic image must be PNG, JPEG, WebP, or GIF"
    );
    assert!(load(with_image("MAP.JPEG", Some("Map")), &facts("MAP.JPEG", true, true, true, true, 10)).is_ok());
    assert_eq!(
        load(with_image("map.png", Some("Map")), &MediaFacts { root_found: false, images: facts("map.png", true, true, true, true, 1).images })
            .unwrap_err(),
        "media directory content/media was not found"
    );
    assert_eq!(
        load(with_image("map.png", Some("Map")), &facts("map.png", false, false, false, false, 0)).unwrap_err(),
        "question pic image content/media/map.png was not found"
    );
    assert_eq!(
        load(with_image("link.png", Some("Map")), &facts("link.png", true, false, true, true, 1)).unwrap_err(),
        "question pic image path must stay inside the media directory"
    );
    assert_eq!(
        load(with_image("dir.png", Some("Map")), &facts("dir.png", true, true, true, false, 1)).unwrap_err(),
        "question pic image must be a file no larger than 10 MiB"
    );
    assert_eq!(
        load(with_image("big.png", Some("Map")), &facts("big.png", true, true, true, true, 10 * 1024 * 1024 + 1)).unwrap_err(),
        "question pic image must be a file no larger than 10 MiB"
    );
    assert!(load(with_image("max.gif", Some("Map")), &facts("max.gif", true, true, true, true, 10 * 1024 * 1024)).is_ok());
}

#[test]
fn parent_components_anywhere_are_refused() {
    assert_eq!(
        load(with_image("a/../map.png", Some("Map")), &facts("a/../map.png", true, true, true, true, 10)).unwrap_err(),
        "question pic image path must stay inside the media directory"
    );
    assert!(load(with_image("..map.png", Some("Map")), &facts("..map.png", true, true, true, true, 10)).is_ok());
    assert!(load(with_image("a/./map.png", Some("Map")), &facts("a/./map.png", true, true, true, true, 10)).is_ok());
}
