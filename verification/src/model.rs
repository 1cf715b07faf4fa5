//! The game's data: catalog content (games, questions, choices), the phase
//! machine's states, players and their submissions.
//!
//! Every type has a view made of mathematical values (texts as `Seq<char>`,
//! lists as `Seq`), over which the contracts of the library are written.
use vstd::prelude::*;

verus! {

/// The shape and colour shown for each answer slot, in slot order.
pub open spec fn answer_style(slot: int) -> (Seq<char>, Seq<char>) {
    if slot == 0 {
        ("triangle"@, "red"@)
    } else if slot == 1 {
        ("diamond"@, "blue"@)
    } else if slot == 2 {
        ("circle"@, "amber"@)
    } else {
        ("square"@, "green"@)
    }
}

/// The number of answer slots that have a style.
pub const ANSWER_STYLE_COUNT: usize = 4;

/// The shape and colour of answer slot `slot`.
pub fn answer_style_of(slot: usize) -> (r: (String, String))
    requires
        slot < ANSWER_STYLE_COUNT,
    ensures
        r.0@ == answer_style(slot as int).0,
        r.1@ == answer_style(slot as int).1,
{
    if slot == 0 {
        (String::from_str("triangle"), String::from_str("red"))
    } else if slot == 1 {
        (String::from_str("diamond"), String::from_str("blue"))
    } else if slot == 2 {
        (String::from_str("circle"), String::from_str("amber"))
    } else {
        (String::from_str("square"), String::from_str("green"))
    }
}

/// The reading time a question gets when its content names none.
pub fn default_reading_time() -> (r: u64)
    ensures
        r == 5,
{
    5
}

// ---------------------------------------------------------------------------
// Content
// ---------------------------------------------------------------------------

/// One answer option of a multiple-choice question.
#[derive(Debug)]
pub struct Choice {
    pub id: String,
    pub text: String,
}

pub struct ChoiceView {
    pub id: Seq<char>,
    pub text: Seq<char>,
}

impl View for Choice {
    type V = ChoiceView;

    open spec fn view(&self) -> ChoiceView {
        ChoiceView { id: self.id@, text: self.text@ }
    }
}

impl DeepView for Choice {
    type V = ChoiceView;

    open spec fn deep_view(&self) -> ChoiceView {
        self@
    }
}

/// A question of a game.
#[derive(Debug)]
pub enum Question {
    MultipleChoice {
        id: String,
        prompt: String,
        image: Option<String>,
        image_alt: Option<String>,
        time_limit_seconds: u64,
        reading_time_seconds: u64,
        double_points: bool,
        options: Vec<Choice>,
        correct_option_id: String,
    },
    FreeText {
        id: String,
        prompt: String,
        image: Option<String>,
        image_alt: Option<String>,
        time_limit_seconds: u64,
        reading_time_seconds: u64,
        double_points: bool,
        accepted_answers: Vec<String>,
    },
}

pub enum QuestionView {
    MultipleChoice {
        id: Seq<char>,
        prompt: Seq<char>,
        image: Option<Seq<char>>,
        image_alt: Option<Seq<char>>,
        time_limit_seconds: u64,
        reading_time_seconds: u64,
        double_points: bool,
        options: Seq<ChoiceView>,
        correct_option_id: Seq<char>,
    },
    FreeText {
        id: Seq<char>,
        prompt: Seq<char>,
        image: Option<Seq<char>>,
        image_alt: Option<Seq<char>>,
        time_limit_seconds: u64,
        reading_time_seconds: u64,
        double_points: bool,
        accepted_answers: Seq<Seq<char>>,
    },
}

impl QuestionView {
    pub open spec fn id(self) -> Seq<char> {
        match self {
            QuestionView::MultipleChoice { id, .. } => id,
            QuestionView::FreeText { id, .. } => id,
        }
    }

    pub open spec fn prompt(self) -> Seq<char> {
        match self {
            QuestionView::MultipleChoice { prompt, .. } => prompt,
            QuestionView::FreeText { prompt, .. } => prompt,
        }
    }

    pub open spec fn image(self) -> Option<Seq<char>> {
        match self {
            QuestionView::MultipleChoice { image, .. } => image,
            QuestionView::FreeText { image, .. } => image,
        }
    }

    pub open spec fn image_alt(self) -> Option<Seq<char>> {
        match self {
            QuestionView::MultipleChoice { image_alt, .. } => image_alt,
            QuestionView::FreeText { image_alt, .. } => image_alt,
        }
    }

    pub open spec fn time_limit_seconds(self) -> u64 {
        match self {
            QuestionView::MultipleChoice { time_limit_seconds, .. } => time_limit_seconds,
            QuestionView::FreeText { time_limit_seconds, .. } => time_limit_seconds,
        }
    }

    pub open spec fn reading_time_seconds(self) -> u64 {
        match self {
            QuestionView::MultipleChoice { reading_time_seconds, .. } => reading_time_seconds,
            QuestionView::FreeText { reading_time_seconds, .. } => reading_time_seconds,
        }
    }

    pub open spec fn double_points(self) -> bool {
        match self {
            QuestionView::MultipleChoice { double_points, .. } => double_points,
            QuestionView::FreeText { double_points, .. } => double_points,
        }
    }
}

impl View for Question {
    type V = QuestionView;

    open spec fn view(&self) -> QuestionView {
        match self {
            Question::MultipleChoice {
                id,
                prompt,
                image,
                image_alt,
                time_limit_seconds,
                reading_time_seconds,
                double_points,
                options,
                correct_option_id,
            } => QuestionView::MultipleChoice {
                id: id@,
                prompt: prompt@,
                image: image.deep_view(),
                image_alt: image_alt.deep_view(),
                time_limit_seconds: *time_limit_seconds,
                reading_time_seconds: *reading_time_seconds,
                double_points: *double_points,
                options: options.deep_view(),
                correct_option_id: correct_option_id@,
            },
            Question::FreeText {
                id,
                prompt,
                image,
                image_alt,
                time_limit_seconds,
                reading_time_seconds,
                double_points,
                accepted_answers,
            } => QuestionView::FreeText {
                id: id@,
                prompt: prompt@,
                image: image.deep_view(),
                image_alt: image_alt.deep_view(),
                time_limit_seconds: *time_limit_seconds,
                reading_time_seconds: *reading_time_seconds,
                double_points: *double_points,
                accepted_answers: accepted_answers.deep_view(),
            },
        }
    }
}

impl DeepView for Question {
    type V = QuestionView;

    open spec fn deep_view(&self) -> QuestionView {
        self@
    }
}

/// A game: a titled list of questions.
#[derive(Debug)]
pub struct Game {
    pub id: String,
    pub title: String,
    pub description: String,
    pub questions: Vec<Question>,
}

pub struct GameView {
    pub id: Seq<char>,
    pub title: Seq<char>,
    pub description: Seq<char>,
    pub questions: Seq<QuestionView>,
}

impl View for Game {
    type V = GameView;

    open spec fn view(&self) -> GameView {
        GameView {
            id: self.id@,
            title: self.title@,
            description: self.description@,
            questions: self.questions.deep_view(),
        }
    }
}

impl DeepView for Game {
    type V = GameView;

    open spec fn deep_view(&self) -> GameView {
        self@
    }
}

/// The content of a games file.
#[derive(Debug)]
pub struct GamesFile {
    pub games: Vec<Game>,
}

impl View for GamesFile {
    type V = Seq<GameView>;

    open spec fn view(&self) -> Seq<GameView> {
        self.games.deep_view()
    }
}

// ---------------------------------------------------------------------------
// Copies that keep the content.
// ---------------------------------------------------------------------------

pub(crate) fn copy_text_option(o: &Option<String>) -> (r: Option<String>)
    ensures
        r.deep_view() == o.deep_view(),
{
    match o {
        Some(s) => Some(s.clone()),
        None => None,
    }
}

pub(crate) fn copy_texts(v: &Vec<String>) -> (r: Vec<String>)
    ensures
        r.deep_view() == v.deep_view(),
{
    let mut r: Vec<String> = Vec::new();
    let mut i: usize = 0;
    while i < v.len()
        invariant
            i <= v@.len(),
            r@.len() == i,
            forall|k: int| 0 <= k < i ==> (#[trigger] r@[k]).deep_view() == v@[k].deep_view(),
        decreases v@.len() - i,
    {
        r.push(v[i].clone());
        i = i + 1;
    }
    assert(r.deep_view() =~= v.deep_view());
    r
}

impl Choice {
    /// A copy of this choice.
    pub fn duplicate(&self) -> (r: Choice)
        ensures
            r@ == self@,
    {
        Choice { id: self.id.clone(), text: self.text.clone() }
    }
}

fn copy_choices(v: &Vec<Choice>) -> (r: Vec<Choice>)
    ensures
        r.deep_view() == v.deep_view(),
{
    let mut r: Vec<Choice> = Vec::new();
    let mut i: usize = 0;
    while i < v.len()
        invariant
            i <= v@.len(),
            r@.len() == i,
            forall|k: int| 0 <= k < i ==> (#[trigger] r@[k]).deep_view() == v@[k].deep_view(),
        decreases v@.len() - i,
    {
        let item = v[i].duplicate();
        r.push(item);
        i = i + 1;
    }
    assert(r.deep_view() =~= v.deep_view());
    r
}

impl Question {
    /// A copy of this question.
    pub fn duplicate(&self) -> (r: Question)
        ensures
            r@ == self@,
    {
        match self {
            Question::MultipleChoice {
                id,
                prompt,
                image,
                image_alt,
                time_limit_seconds,
                reading_time_seconds,
                double_points,
                options,
                correct_option_id,
            } => Question::MultipleChoice {
                id: id.clone(),
                prompt: prompt.clone(),
                image: copy_text_option(image),
                image_alt: copy_text_option(image_alt),
                time_limit_seconds: *time_limit_seconds,
                reading_time_seconds: *reading_time_seconds,
                double_points: *double_points,
                options: copy_choices(options),
                correct_option_id: correct_option_id.clone(),
            },
            Question::FreeText {
                id,
                prompt,
                image,
                image_alt,
                time_limit_seconds,
                reading_time_seconds,
                double_points,
                accepted_answers,
            } => Question::FreeText {
                id: id.clone(),
                prompt: prompt.clone(),
                image: copy_text_option(image),
                image_alt: copy_text_option(image_alt),
                time_limit_seconds: *time_limit_seconds,
                reading_time_seconds: *reading_time_seconds,
                double_points: *double_points,
                accepted_answers: copy_texts(accepted_answers),
            },
        }
    }

    /// The question's identifier.
    pub fn id(&self) -> (r: &str)
        ensures
            r@ == self@.id(),
    {
        match self {
            Question::MultipleChoice { id, .. } => id.as_str(),
            Question::FreeText { id, .. } => id.as_str(),
        }
    }

    /// The prompt text.
    pub fn prompt(&self) -> (r: &str)
        ensures
            r@ == self@.prompt(),
    {
        match self {
            Question::MultipleChoice { prompt, .. } => prompt.as_str(),
            Question::FreeText { prompt, .. } => prompt.as_str(),
        }
    }

    /// Seconds that answers stay open.
    pub fn time_limit_seconds(&self) -> (r: u64)
        ensures
            r == self@.time_limit_seconds(),
    {
        match self {
            Question::MultipleChoice { time_limit_seconds, .. } => *time_limit_seconds,
            Question::FreeText { time_limit_seconds, .. } => *time_limit_seconds,
        }
    }

    /// Seconds the question is shown before answers open.
    pub fn reading_time_seconds(&self) -> (r: u64)
        ensures
            r == self@.reading_time_seconds(),
    {
        match self {
            Question::MultipleChoice { reading_time_seconds, .. } => *reading_time_seconds,
            Question::FreeText { reading_time_seconds, .. } => *reading_time_seconds,
        }
    }

    /// Whether correct answers score double.
    pub fn double_points(&self) -> (r: bool)
        ensures
            r == self@.double_points(),
    {
        match self {
            Question::MultipleChoice { double_points, .. } => *double_points,
            Question::FreeText { double_points, .. } => *double_points,
        }
    }

    /// The image file name, if the question shows one.
    pub fn image(&self) -> (r: Option<&str>)
        ensures
            r.deep_view() == self@.image(),
    {
        match self {
            Question::MultipleChoice { image, .. } => match image {
                Some(s) => Some(s.as_str()),
                None => None,
            },
            Question::FreeText { image, .. } => match image {
                Some(s) => Some(s.as_str()),
                None => None,
            },
        }
    }

    /// The image's alternative text, if any.
    pub fn image_alt(&self) -> (r: Option<&str>)
        ensures
            r.deep_view() == self@.image_alt(),
    {
        match self {
            Question::MultipleChoice { image_alt, .. } => match image_alt {
                Some(s) => Some(s.as_str()),
                None => None,
            },
            Question::FreeText { image_alt, .. } => match image_alt {
                Some(s) => Some(s.as_str()),
                None => None,
            },
        }
    }
}

fn copy_questions(v: &Vec<Question>) -> (r: Vec<Question>)
    ensures
        r.deep_view() == v.deep_view(),
{
    let mut r: Vec<Question> = Vec::new();
    let mut i: usize = 0;
    while i < v.len()
        invariant
            i <= v@.len(),
            r@.len() == i,
            forall|k: int| 0 <= k < i ==> (#[trigger] r@[k]).deep_view() == v@[k].deep_view(),
        decreases v@.len() - i,
    {
        let item = v[i].duplicate();
        r.push(item);
        i = i + 1;
    }
    assert(r.deep_view() =~= v.deep_view());
    r
}

impl Game {
    /// A copy of this game.
    pub fn duplicate(&self) -> (r: Game)
        ensures
            r@ == self@,
    {
        Game {
            id: self.id.clone(),
            title: self.title.clone(),
            description: self.description.clone(),
            questions: copy_questions(&self.questions),
        }
    }
}

// ---------------------------------------------------------------------------
// Phases, players and submissions
// ---------------------------------------------------------------------------

/// Where the event stands.
#[derive(Debug)]
pub enum Phase {
    Selection,
    Lobby { game_id: String },
    Reading { question_index: usize, deadline_ms: i64 },
    Answering { question_index: usize, started_at_ms: i64, deadline_ms: i64 },
    Reveal { question_index: usize },
    Leaderboard { question_index: usize },
    FinalLeaderboard,
}

pub enum PhaseView {
    Selection,
    Lobby { game_id: Seq<char> },
    Reading { question_index: usize, deadline_ms: i64 },
    Answering { question_index: usize, started_at_ms: i64, deadline_ms: i64 },
    Reveal { question_index: usize },
    Leaderboard { question_index: usize },
    FinalLeaderboard,
}

impl View for Phase {
    type V = PhaseView;

    open spec fn view(&self) -> PhaseView {
        match self {
            Phase::Selection => PhaseView::Selection,
            Phase::Lobby { game_id } => PhaseView::Lobby { game_id: game_id@ },
            Phase::Reading { question_index, deadline_ms } => PhaseView::Reading {
                question_index: *question_index,
                deadline_ms: *deadline_ms,
            },
            Phase::Answering { question_index, started_at_ms, deadline_ms } =>
                PhaseView::Answering {
                    question_index: *question_index,
                    started_at_ms: *started_at_ms,
                    deadline_ms: *deadline_ms,
                },
            Phase::Reveal { question_index } => PhaseView::Reveal {
                question_index: *question_index,
            },
            Phase::Leaderboard { question_index } => PhaseView::Leaderboard {
                question_index: *question_index,
            },
            Phase::FinalLeaderboard => PhaseView::FinalLeaderboard,
        }
    }
}

impl Phase {
    /// A copy of this phase.
    pub fn duplicate(&self) -> (r: Phase)
        ensures
            r@ == self@,
    {
        match self {
            Phase::Selection => Phase::Selection,
            Phase::Lobby { game_id } => Phase::Lobby { game_id: game_id.clone() },
            Phase::Reading { question_index, deadline_ms } => Phase::Reading {
                question_index: *question_index,
                deadline_ms: *deadline_ms,
            },
            Phase::Answering { question_index, started_at_ms, deadline_ms } => Phase::Answering {
                question_index: *question_index,
                started_at_ms: *started_at_ms,
                deadline_ms: *deadline_ms,
            },
            Phase::Reveal { question_index } => Phase::Reveal { question_index: *question_index },
            Phase::Leaderboard { question_index } => Phase::Leaderboard {
                question_index: *question_index,
            },
            Phase::FinalLeaderboard => Phase::FinalLeaderboard,
        }
    }

    /// Whether this is the phase between games, where a game may be chosen.
    pub fn is_between_games(&self) -> (r: bool)
        ensures
            r == self@.between_games(),
    {
        match self {
            Phase::Selection => true,
            Phase::Lobby { .. } => true,
            Phase::FinalLeaderboard => true,
            _ => false,
        }
    }
}

impl PhaseView {
    /// Selection, lobby or the final leaderboard.
    pub open spec fn between_games(self) -> bool {
        self is Selection || self is Lobby || self is FinalLeaderboard
    }
}

/// A player who joined the event.
#[derive(Debug)]
pub struct Player {
    pub id: String,
    pub username: String,
    pub token_hash: String,
    pub score: i64,
    pub correct_count: u32,
    pub correct_response_ms: u64,
    pub joined_order: u64,
    pub eligible_from_question: usize,
    pub previous_rank: Option<usize>,
}

pub struct PlayerView {
    pub id: Seq<char>,
    pub username: Seq<char>,
    pub token_hash: Seq<char>,
    pub score: i64,
    pub correct_count: u32,
    pub correct_response_ms: u64,
    pub joined_order: u64,
    pub eligible_from_question: usize,
    pub previous_rank: Option<usize>,
}

impl View for Player {
    type V = PlayerView;

    open spec fn view(&self) -> PlayerView {
        PlayerView {
            id: self.id@,
            username: self.username@,
            token_hash: self.token_hash@,
            score: self.score,
            correct_count: self.correct_count,
            correct_response_ms: self.correct_response_ms,
            joined_order: self.joined_order,
            eligible_from_question: self.eligible_from_question,
            previous_rank: self.previous_rank,
        }
    }
}

impl DeepView for Player {
    type V = PlayerView;

    open spec fn deep_view(&self) -> PlayerView {
        self@
    }
}

impl Player {
    /// A copy of this player.
    pub fn duplicate(&self) -> (r: Player)
        ensures
            r@ == self@,
    {
        Player {
            id: self.id.clone(),
            username: self.username.clone(),
            token_hash: self.token_hash.clone(),
            score: self.score,
            correct_count: self.correct_count,
            correct_response_ms: self.correct_response_ms,
            joined_order: self.joined_order,
            eligible_from_question: self.eligible_from_question,
            previous_rank: self.previous_rank,
        }
    }
}

/// What a player sent as an answer.
#[derive(Debug)]
pub enum SubmittedAnswer {
    MultipleChoice { option_id: String },
    FreeText { text: String },
}

pub enum AnswerView {
    MultipleChoice { option_id: Seq<char> },
    FreeText { text: Seq<char> },
}

impl View for SubmittedAnswer {
    type V = AnswerView;

    open spec fn view(&self) -> AnswerView {
        match self {
            SubmittedAnswer::MultipleChoice { option_id } => AnswerView::MultipleChoice {
                option_id: option_id@,
            },
            SubmittedAnswer::FreeText { text } => AnswerView::FreeText { text: text@ },
        }
    }
}

impl SubmittedAnswer {
    /// A copy of this answer.
    pub fn duplicate(&self) -> (r: SubmittedAnswer)
        ensures
            r@ == self@,
    {
        match self {
            SubmittedAnswer::MultipleChoice { option_id } => SubmittedAnswer::MultipleChoice {
                option_id: option_id.clone(),
            },
            SubmittedAnswer::FreeText { text } => SubmittedAnswer::FreeText { text: text.clone() },
        }
    }
}

/// A player's answer to one question, and once scored, its outcome.
#[derive(Debug)]
pub struct Submission {
    pub player_id: String,
    pub question_index: usize,
    pub answer: SubmittedAnswer,
    pub response_ms: u64,
    pub correct: Option<bool>,
    pub points: Option<i64>,
}

pub struct SubmissionView {
    pub player_id: Seq<char>,
    pub question_index: usize,
    pub answer: AnswerView,
    pub response_ms: u64,
    pub correct: Option<bool>,
    pub points: Option<i64>,
}

impl View for Submission {
    type V = SubmissionView;

    open spec fn view(&self) -> SubmissionView {
        SubmissionView {
            player_id: self.player_id@,
            question_index: self.question_index,
            answer: self.answer@,
            response_ms: self.response_ms,
            correct: self.correct,
            points: self.points,
        }
    }
}

impl DeepView for Submission {
    type V = SubmissionView;

    open spec fn deep_view(&self) -> SubmissionView {
        self@
    }
}

} // verus!
