use hoot::matching::{answer_is_correct, damerau_levenshtein, normalize_answer};
use hoot::model::{Choice, Question, SubmittedAnswer};

fn free_text(answers: &[&str]) -> Question {
    Question::FreeText {
        id: "q".into(),
        prompt: "Question".into(),
        image: None,
        image_alt: None,
        time_limit_seconds: 20,
        reading_time_seconds: 5,
        double_points: false,
        accepted_answers: answers.iter().map(|answer| (*answer).into()).collect(),
    }
}

fn multiple_choice() -> Question {
    Question::MultipleChoice {
        id: "mc".into(),
        prompt: "Pick".into(),
        image: None,
        image_alt: None,
        time_limit_seconds: 20,
        reading_time_seconds: 5,
        double_points: false,
        options: vec![
            Choice { id: "a".into(), text: "A".into() },
            Choice { id: "b".into(), text: "B".into() },
        ],
        correct_option_id: "b".into(),
    }
}

#[test]
fn text_matching_normalizes_and_uses_safe_thresholds() {
    let question = free_text(&["Café au lait", "Paris"]);
    assert!(answer_is_correct(
        &question,
        &SubmittedAnswer::FreeText { text: " cafe, AU  lait! ".into() }
    ));
    assert!(answer_is_correct(
        &question,
        &SubmittedAnswer::FreeText { text: "Parsi".into() }
    ));
    assert!(!answer_is_correct(
        &free_text(&["cat"]),
        &SubmittedAnswer::FreeText { text: "bat".into() }
    ));
}

#[test]
fn transpositions_count_as_one_edit() {
    assert_eq!(damerau_levenshtein("planet", "palnet"), 1);
}

#[test]
fn normalizing_drops_accents_case_punctuation_and_extra_space() {
    assert_eq!(normalize_answer("  Crème   BRÛLÉE!! "), "creme brulee");
    assert_eq!(normalize_answer("Rock-'n'-Roll"), "rock n roll");
    assert_eq!(normalize_answer("?!"), "");
}

#[test]
fn edit_distance_examples() {
    assert_eq!(damerau_levenshtein("", ""), 0);
    assert_eq!(damerau_levenshtein("abc", ""), 3);
    assert_eq!(damerau_levenshtein("", "abcd"), 4);
    assert_eq!(damerau_levenshtein("kitten", "sitting"), 3);
    assert_eq!(damerau_levenshtein("ca", "abc"), 3);
    assert_eq!(damerau_levenshtein("same", "same"), 0);
}

#[test]
fn edit_distance_is_symmetric_on_examples() {
    let words = ["planet", "palnet", "kitten", "sitting", "", "a", "ab", "ba", "café"];
    for a in words {
        for b in words {
            assert_eq!(damerau_levenshtein(a, b), damerau_levenshtein(b, a));
        }
    }
}

#[test]
fn typo_tolerance_grows_with_answer_length() {
    // Up to three characters: exact (after normalizing) only.
    assert!(!answer_is_correct(&free_text(&["cat"]), &SubmittedAnswer::FreeText { text: "act".into() }));
    assert!(answer_is_correct(&free_text(&["cat"]), &SubmittedAnswer::FreeText { text: " CAT! ".into() }));
    // Four to eight characters: one edit.
    assert!(answer_is_correct(&free_text(&["cats"]), &SubmittedAnswer::FreeText { text: "cast".into() }));
    assert!(answer_is_correct(&free_text(&["planet"]), &SubmittedAnswer::FreeText { text: "plnet".into() }));
    assert!(!answer_is_correct(&free_text(&["planet"]), &SubmittedAnswer::FreeText { text: "plnt".into() }));
    // Longer: two edits.
    assert!(answer_is_correct(
        &free_text(&["photosynthesis"]),
        &SubmittedAnswer::FreeText { text: "fotosynthesis".into() }
    ));
    assert!(!answer_is_correct(
        &free_text(&["photosynthesis"]),
        &SubmittedAnswer::FreeText { text: "fotosynthesys".into() }
    ));
}

#[test]
fn an_empty_answer_is_far_from_a_short_word() {
    assert!(!answer_is_correct(&free_text(&["cat"]), &SubmittedAnswer::FreeText { text: "   ".into() }));
}

#[test]
fn any_accepted_answer_may_match() {
    let q = free_text(&["Lisbon", "Lisboa"]);
    assert!(answer_is_correct(&q, &SubmittedAnswer::FreeText { text: "lisboa".into() }));
    assert!(answer_is_correct(&q, &SubmittedAnswer::FreeText { text: "LISBN".into() }));
    assert!(!answer_is_correct(&q, &SubmittedAnswer::FreeText { text: "Madrid".into() }));
}

#[test]
fn multiple_choice_is_correct_only_for_the_correct_option() {
    let q = multiple_choice();
    assert!(answer_is_correct(&q, &SubmittedAnswer::MultipleChoice { option_id: "b".into() }));
    assert!(!answer_is_correct(&q, &SubmittedAnswer::MultipleChoice { option_id: "a".into() }));
    assert!(!answer_is_correct(&q, &SubmittedAnswer::FreeText { text: "b".into() }));
    assert!(!answer_is_correct(&free_text(&["b"]), &SubmittedAnswer::MultipleChoice { option_id: "b".into() }));
}

#[test]
fn edit_distance_is_zero_only_for_equal_texts_and_at_least_the_length_gap() {
    let words = ["planet", "palnet", "kitten", "sitting", "", "a", "ab", "ba", "café", "cafe"];
    for a in words {
        for b in words {
            let d = damerau_levenshtein(a, b);
            let (m, n) = (a.chars().count(), b.chars().count());
            assert_eq!(d == 0, a == b, "{a} / {b}");
            assert!(m.abs_diff(n) <= d && d <= m.max(n), "{a} / {b}");
        }
    }
}
