//! What each client is shown: the host's picture of the whole event and
//! each player's own picture, both computed from the engine.
//!
//! Each picture is stated as a function of the engine's view; the methods
//! that build them are proved to compute exactly those functions.
use vstd::prelude::*;
use crate::engine::{
    current_question_index, eligible_count, in_i64, is_ranking, leaderboard, place_of, ranking,
    submitted_count, well_formed, Engine, EngineView, GameStateView, Ranking, RankingView,
};
use crate::model::{
    answer_style, answer_style_of, copy_text_option, copy_texts, AnswerView, Choice, ChoiceView,
    Game, GameView, Phase, PhaseView, PlayerView, Question, QuestionView, Submission, SubmissionView,
    SubmittedAnswer, ANSWER_STYLE_COUNT,
};
use crate::players::{connection_count, ids_sorted, index_of, lemma_index_of_sorted};
use crate::session::{host_current, ClientIdentity, IdentityView};
use crate::text::{join3, owned, same_text};

verus! {

// ---------------------------------------------------------------------------
// Shared pieces
// ---------------------------------------------------------------------------

/// Question `qi` of the active game, when it has one.
pub open spec fn question_at(st: GameStateView, qi: usize) -> Option<QuestionView> {
    match st.active_game {
        Some(g) => if qi < g.questions.len() {
            Some(g.questions[qi as int])
        } else {
            None
        },
        None => None,
    }
}

/// The question the current phase is about, when the active game has it.
pub open spec fn current_question(st: GameStateView) -> Option<QuestionView> {
    match current_question_index(st) {
        Some(i) => question_at(st, i),
        None => None,
    }
}

/// A multiple-choice question has no more options than there are answer styles.
pub open spec fn styled(q: Option<QuestionView>) -> bool {
    q matches Some(QuestionView::MultipleChoice { options, .. }) ==> options.len() <= ANSWER_STYLE_COUNT
}

/// The 1-based number of the current question.
pub open spec fn question_number(st: GameStateView) -> Option<usize> {
    match current_question_index(st) {
        Some(i) => Some((i + 1) as usize),
        None => None,
    }
}

/// The number of questions of the active game.
pub open spec fn question_count(st: GameStateView) -> Option<usize> {
    match st.active_game {
        Some(g) => Some(g.questions.len() as usize),
        None => None,
    }
}

/// The current question's 1-based number fits in `usize`.
pub open spec fn numbered(st: GameStateView) -> bool {
    current_question_index(st) matches Some(i) ==> i < usize::MAX
}

/// The host's picture can be built: the current question's number fits,
/// and the current question, if it is a multiple-choice one, has no more
/// options than there are answer styles.
pub open spec fn host_picture_fits(st: GameStateView) -> bool {
    numbered(st) && styled(current_question(st))
}

// ---------------------------------------------------------------------------
// The host's picture
// ---------------------------------------------------------------------------

/// A game as the host's picker lists it.
#[derive(Debug)]
pub struct GameSummary {
    pub id: String,
    pub title: String,
    pub description: String,
    pub question_count: usize,
}

pub struct GameSummaryView {
    pub id: Seq<char>,
    pub title: Seq<char>,
    pub description: Seq<char>,
    pub question_count: usize,
}

impl View for GameSummary {
    type V = GameSummaryView;

    open spec fn view(&self) -> GameSummaryView {
        GameSummaryView {
            id: self.id@,
            title: self.title@,
            description: self.description@,
            question_count: self.question_count,
        }
    }
}

impl DeepView for GameSummary {
    type V = GameSummaryView;

    open spec fn deep_view(&self) -> GameSummaryView {
        self@
    }
}

/// The picker's entry for game `g`.
pub open spec fn game_summary(g: GameView) -> GameSummaryView {
    GameSummaryView {
        id: g.id,
        title: g.title,
        description: g.description,
        question_count: g.questions.len() as usize,
    }
}

/// A player as the host's roster shows them.
#[derive(Debug)]
pub struct RosterEntry {
    pub id: String,
    pub username: String,
    pub score: i64,
    pub rank: usize,
    pub rank_delta: i64,
    pub connected: bool,
}

pub struct RosterEntryView {
    pub id: Seq<char>,
    pub username: Seq<char>,
    pub score: i64,
    pub rank: usize,
    pub rank_delta: i64,
    pub connected: bool,
}

impl View for RosterEntry {
    type V = RosterEntryView;

    open spec fn view(&self) -> RosterEntryView {
        RosterEntryView {
            id: self.id@,
            username: self.username@,
            score: self.score,
            rank: self.rank,
            rank_delta: self.rank_delta,
            connected: self.connected,
        }
    }
}

impl DeepView for RosterEntry {
    type V = RosterEntryView;

    open spec fn deep_view(&self) -> RosterEntryView {
        self@
    }
}

/// The roster line of a leaderboard line: connected when the player has
/// an open connection.
pub open spec fn roster_entry(line: RankingView, connections: Seq<(Seq<char>, usize)>) -> RosterEntryView {
    RosterEntryView {
        id: line.id,
        username: line.username,
        score: line.score,
        rank: line.rank,
        rank_delta: line.rank_delta,
        connected: connection_count(connections, line.id) > 0,
    }
}

/// The host's roster: the leaderboard, with who is connected.
pub open spec fn roster(e: EngineView) -> Seq<RosterEntryView> {
    let lb = leaderboard(e.state.players);
    Seq::new(lb.len(), |k: int| roster_entry(lb[k], e.connected_players))
}

/// An option of the current question as the host sees it.
#[derive(Debug)]
pub struct HostOption {
    pub id: String,
    pub text: String,
    pub number: usize,
    pub shape: String,
    pub color: String,
    pub correct: bool,
}

pub struct HostOptionView {
    pub id: Seq<char>,
    pub text: Seq<char>,
    pub number: usize,
    pub shape: Seq<char>,
    pub color: Seq<char>,
    pub correct: bool,
}

impl View for HostOption {
    type V = HostOptionView;

    open spec fn view(&self) -> HostOptionView {
        HostOptionView {
            id: self.id@,
            text: self.text@,
            number: self.number,
            shape: self.shape@,
            color: self.color@,
            correct: self.correct,
        }
    }
}

impl DeepView for HostOption {
    type V = HostOptionView;

    open spec fn deep_view(&self) -> HostOptionView {
        self@
    }
}

/// Option `c` in slot `slot`: its 1-based number, the slot's style, and
/// whether it is the correct one.
pub open spec fn host_option(slot: int, c: ChoiceView, correct_id: Seq<char>) -> HostOptionView {
    HostOptionView {
        id: c.id,
        text: c.text,
        number: (slot + 1) as usize,
        shape: answer_style(slot).0,
        color: answer_style(slot).1,
        correct: c.id == correct_id,
    }
}

/// The current question as the host sees it: the question with its image
/// replaced by the address the image is served at, and its options styled.
#[derive(Debug)]
pub enum HostQuestion {
    MultipleChoice {
        id: String,
        prompt: String,
        image_url: Option<String>,
        image_alt: Option<String>,
        time_limit_seconds: u64,
        reading_time_seconds: u64,
        double_points: bool,
        options: Vec<HostOption>,
        correct_option_id: String,
    },
    FreeText {
        id: String,
        prompt: String,
        image_url: Option<String>,
        image_alt: Option<String>,
        time_limit_seconds: u64,
        reading_time_seconds: u64,
        double_points: bool,
        accepted_answers: Vec<String>,
    },
}

pub enum HostQuestionView {
    MultipleChoice {
        id: Seq<char>,
        prompt: Seq<char>,
        image_url: Option<Seq<char>>,
        image_alt: Option<Seq<char>>,
        time_limit_seconds: u64,
        reading_time_seconds: u64,
        double_points: bool,
        options: Seq<HostOptionView>,
        correct_option_id: Seq<char>,
    },
    FreeText {
        id: Seq<char>,
        prompt: Seq<char>,
        image_url: Option<Seq<char>>,
        image_alt: Option<Seq<char>>,
        time_limit_seconds: u64,
        reading_time_seconds: u64,
        double_points: bool,
        accepted_answers: Seq<Seq<char>>,
    },
}

impl View for HostQuestion {
    type V = HostQuestionView;

    open spec fn view(&self) -> HostQuestionView {
        match self {
            HostQuestion::MultipleChoice {
                id,
                prompt,
                image_url,
                image_alt,
                time_limit_seconds,
                reading_time_seconds,
                double_points,
                options,
                correct_option_id,
            } => HostQuestionView::MultipleChoice {
                id: id@,
                prompt: prompt@,
                image_url: image_url.deep_view(),
                image_alt: image_alt.deep_view(),
                time_limit_seconds: *time_limit_seconds,
                reading_time_seconds: *reading_time_seconds,
                double_points: *double_points,
                options: options.deep_view(),
                correct_option_id: correct_option_id@,
            },
            HostQuestion::FreeText {
                id,
                prompt,
                image_url,
                image_alt,
                time_limit_seconds,
                reading_time_seconds,
                double_points,
                accepted_answers,
            } => HostQuestionView::FreeText {
                id: id@,
                prompt: prompt@,
                image_url: image_url.deep_view(),
                image_alt: image_alt.deep_view(),
                time_limit_seconds: *time_limit_seconds,
                reading_time_seconds: *reading_time_seconds,
                double_points: *double_points,
                accepted_answers: accepted_answers.deep_view(),
            },
        }
    }
}

/// The address an image of the media directory is served at.
pub open spec fn media_url(image: Option<Seq<char>>) -> Option<Seq<char>> {
    match image {
        Some(i) => Some("/media/"@ + i),
        None => None,
    }
}

/// The host's picture of question `q`.
pub open spec fn shown_question(q: QuestionView) -> HostQuestionView {
    match q {
        QuestionView::MultipleChoice {
            id,
            prompt,
            image,
            image_alt,
            time_limit_seconds,
            reading_time_seconds,
            double_points,
            options,
            correct_option_id,
        } => HostQuestionView::MultipleChoice {
            id,
            prompt,
            image_url: media_url(image),
            image_alt,
            time_limit_seconds,
            reading_time_seconds,
            double_points,
            options: Seq::new(options.len(), |k: int| host_option(k, options[k], correct_option_id)),
            correct_option_id,
        },
        QuestionView::FreeText {
            id,
            prompt,
            image,
            image_alt,
            time_limit_seconds,
            reading_time_seconds,
            double_points,
            accepted_answers,
        } => HostQuestionView::FreeText {
            id,
            prompt,
            image_url: media_url(image),
            image_alt,
            time_limit_seconds,
            reading_time_seconds,
            double_points,
            accepted_answers,
        },
    }
}

/// How often one option of the current question was chosen.
#[derive(Debug)]
pub struct OptionTally {
    pub id: String,
    pub text: String,
    pub count: usize,
    pub correct: bool,
    pub number: usize,
    pub shape: String,
    pub color: String,
}

pub struct OptionTallyView {
    pub id: Seq<char>,
    pub text: Seq<char>,
    pub count: usize,
    pub correct: bool,
    pub number: usize,
    pub shape: Seq<char>,
    pub color: Seq<char>,
}

impl View for OptionTally {
    type V = OptionTallyView;

    open spec fn view(&self) -> OptionTallyView {
        OptionTallyView {
            id: self.id@,
            text: self.text@,
            count: self.count,
            correct: self.correct,
            number: self.number,
            shape: self.shape@,
            color: self.color@,
        }
    }
}

impl DeepView for OptionTally {
    type V = OptionTallyView;

    open spec fn deep_view(&self) -> OptionTallyView {
        self@
    }
}

/// How the answers to the current question are spread.
#[derive(Debug)]
pub enum Distribution {
    MultipleChoice { options: Vec<OptionTally>, unanswered: usize },
    FreeText { correct: usize, incorrect: usize, unanswered: usize },
}

pub enum DistributionView {
    MultipleChoice { options: Seq<OptionTallyView>, unanswered: usize },
    FreeText { correct: usize, incorrect: usize, unanswered: usize },
}

impl View for Distribution {
    type V = DistributionView;

    open spec fn view(&self) -> DistributionView {
        match self {
            Distribution::MultipleChoice { options, unanswered } => DistributionView::MultipleChoice {
                options: options.deep_view(),
                unanswered: *unanswered,
            },
            Distribution::FreeText { correct, incorrect, unanswered } => DistributionView::FreeText {
                correct: *correct,
                incorrect: *incorrect,
                unanswered: *unanswered,
            },
        }
    }
}

/// How many of the first `n` submissions answer question `qi` with option `id`.
pub open spec fn chosen_count(subs: Seq<SubmissionView>, qi: usize, id: Seq<char>, n: nat) -> nat
    decreases n,
{
    if n == 0 {
        0
    } else {
        chosen_count(subs, qi, id, (n - 1) as nat) + (if subs[n - 1].question_index == qi && (
        subs[n - 1].answer matches AnswerView::MultipleChoice { option_id } && option_id == id) {
            1nat
        } else {
            0nat
        })
    }
}

/// How many of the first `n` submissions answer question `qi` and were
/// judged `verdict`.
pub open spec fn judged_count(subs: Seq<SubmissionView>, qi: usize, verdict: bool, n: nat) -> nat
    decreases n,
{
    if n == 0 {
        0
    } else {
        judged_count(subs, qi, verdict, (n - 1) as nat) + (if subs[n - 1].question_index == qi
            && subs[n - 1].correct == Some(verdict) {
            1nat
        } else {
            0nat
        })
    }
}

/// The players allowed to answer question `qi` less its answers, and 0
/// when there are at least as many answers.
pub open spec fn unanswered(st: GameStateView, qi: usize) -> nat {
    let eligible = eligible_count(st.players, qi, st.players.len());
    let answered = submitted_count(st.submissions, qi, st.submissions.len());
    if eligible >= answered {
        (eligible - answered) as nat
    } else {
        0
    }
}

/// The tally of option `c` in slot `slot` of question `qi`.
pub open spec fn option_tally(st: GameStateView, qi: usize, slot: int, c: ChoiceView, correct_id: Seq<char>) -> OptionTallyView {
    OptionTallyView {
        id: c.id,
        text: c.text,
        count: chosen_count(st.submissions, qi, c.id, st.submissions.len()) as usize,
        correct: c.id == correct_id,
        number: (slot + 1) as usize,
        shape: answer_style(slot).0,
        color: answer_style(slot).1,
    }
}

/// The spread of the answers to question `qi` of the active game (none
/// when the active game has no such question).
pub open spec fn tallies(st: GameStateView, qi: usize) -> Option<DistributionView> {
    match st.active_game {
        Some(g) => if qi < g.questions.len() {
            match g.questions[qi as int] {
                QuestionView::MultipleChoice { options, correct_option_id, .. } => Some(
                    DistributionView::MultipleChoice {
                        options: Seq::new(
                            options.len(),
                            |k: int| option_tally(st, qi, k, options[k], correct_option_id),
                        ),
                        unanswered: unanswered(st, qi) as usize,
                    },
                ),
                QuestionView::FreeText { .. } => Some(
                    DistributionView::FreeText {
                        correct: judged_count(st.submissions, qi, true, st.submissions.len()) as usize,
                        incorrect: judged_count(st.submissions, qi, false, st.submissions.len()) as usize,
                        unanswered: unanswered(st, qi) as usize,
                    },
                ),
            }
        } else {
            None
        },
        None => None,
    }
}

/// Everything the host's screen shows.
#[derive(Debug)]
pub struct HostSnapshot {
    pub revision: u64,
    pub server_time_ms: i64,
    pub phase: Phase,
    pub games: Vec<GameSummary>,
    pub players: Vec<RosterEntry>,
    pub question: Option<HostQuestion>,
    pub question_number: Option<usize>,
    pub question_count: Option<usize>,
    pub distribution: Option<Distribution>,
    pub join_urls: Vec<String>,
    pub join_url: Option<String>,
    pub network_warning: Option<String>,
    pub host_connected: bool,
}

pub struct HostSnapshotView {
    pub revision: u64,
    pub server_time_ms: i64,
    pub phase: PhaseView,
    pub games: Seq<GameSummaryView>,
    pub players: Seq<RosterEntryView>,
    pub question: Option<HostQuestionView>,
    pub question_number: Option<usize>,
    pub question_count: Option<usize>,
    pub distribution: Option<DistributionView>,
    pub join_urls: Seq<Seq<char>>,
    pub join_url: Option<Seq<char>>,
    pub network_warning: Option<Seq<char>>,
    pub host_connected: bool,
}

impl View for HostSnapshot {
    type V = HostSnapshotView;

    open spec fn view(&self) -> HostSnapshotView {
        HostSnapshotView {
            revision: self.revision,
            server_time_ms: self.server_time_ms,
            phase: self.phase@,
            games: self.games.deep_view(),
            players: self.players.deep_view(),
            question: match self.question {
                Some(q) => Some(q@),
                None => None,
            },
            question_number: self.question_number,
            question_count: self.question_count,
            distribution: match self.distribution {
                Some(d) => Some(d@),
                None => None,
            },
            join_urls: self.join_urls.deep_view(),
            join_url: self.join_url.deep_view(),
            network_warning: self.network_warning.deep_view(),
            host_connected: self.host_connected,
        }
    }
}

/// The host's picture of the event at server time `now`: the games to pick
/// from, the roster, the current question with its answer spread, and the
/// join addresses (the advertised one, else the first detected one).
pub open spec fn host_picture(e: EngineView, now: i64) -> HostSnapshotView {
    HostSnapshotView {
        revision: e.state.revision,
        server_time_ms: now,
        phase: e.state.phase,
        games: Seq::new(e.catalog.games.len(), |i: int| game_summary(e.catalog.games[i])),
        players: roster(e),
        question: match current_question(e.state) {
            Some(q) => Some(shown_question(q)),
            None => None,
        },
        question_number: question_number(e.state),
        question_count: question_count(e.state),
        distribution: match current_question_index(e.state) {
            Some(qi) => tallies(e.state, qi),
            None => None,
        },
        join_urls: e.join_urls,
        join_url: match e.state.advertised_url {
            Some(u) => Some(u),
            None => if e.join_urls.len() > 0 {
                Some(e.join_urls[0])
            } else {
                None
            },
        },
        network_warning: e.state.network_warning,
        host_connected: e.host_connections > 0,
    }
}

// ---------------------------------------------------------------------------
// Building the host's picture
// ---------------------------------------------------------------------------

fn game_summaries(games: &Vec<Game>) -> (r: Vec<GameSummary>)
    ensures
        r.deep_view() == Seq::new(games@.len(), |i: int| game_summary(games.deep_view()[i])),
{
    let mut r: Vec<GameSummary> = Vec::new();
    let mut i: usize = 0;
    while i < games.len()
        invariant
            i <= games@.len(),
            r@.len() == i,
            forall|k: int| 0 <= k < i ==> (#[trigger] r@[k])@ == game_summary(games.deep_view()[k]),
        decreases games@.len() - i,
    {
        let g = &games[i];
        r.push(GameSummary {
            id: g.id.clone(),
            title: g.title.clone(),
            description: g.description.clone(),
            question_count: g.questions.len(),
        });
        i = i + 1;
    }
    assert(r.deep_view() =~= Seq::new(games@.len(), |i: int| game_summary(games.deep_view()[i])));
    r
}

fn styled_options(options: &Vec<Choice>, correct_option_id: &str) -> (r: Vec<HostOption>)
    requires
        options@.len() <= ANSWER_STYLE_COUNT,
    ensures
        r.deep_view() == Seq::new(
            options@.len(),
            |k: int| host_option(k, options.deep_view()[k], correct_option_id@),
        ),
{
    let mut r: Vec<HostOption> = Vec::new();
    let mut i: usize = 0;
    while i < options.len()
        invariant
            i <= options@.len() <= ANSWER_STYLE_COUNT,
            r@.len() == i,
            forall|k: int| 0 <= k < i ==> (#[trigger] r@[k])@ == host_option(
                k,
                options.deep_view()[k],
                correct_option_id@,
            ),
        decreases options@.len() - i,
    {
        let c = &options[i];
        let (shape, color) = answer_style_of(i);
        r.push(HostOption {
            id: c.id.clone(),
            text: c.text.clone(),
            number: i + 1,
            shape,
            color,
            correct: same_text(c.id.as_str(), correct_option_id),
        });
        i = i + 1;
    }
    assert(r.deep_view() =~= Seq::new(
        options@.len(),
        |k: int| host_option(k, options.deep_view()[k], correct_option_id@),
    ));
    r
}

fn image_address(image: &Option<String>) -> (r: Option<String>)
    ensures
        r.deep_view() == media_url(image.deep_view()),
{
    match image {
        Some(i) => {
            proof {
                reveal_strlit("");
            }
            Some(join3("/media/", i.as_str(), ""))
        },
        None => None,
    }
}

/// The host's picture of a question: its image as the address it is served
/// at, and each option with its number, style and whether it is correct.
pub fn host_question(q: &Question) -> (r: HostQuestion)
    requires
        q@ matches QuestionView::MultipleChoice { options, .. } ==> options.len() <= ANSWER_STYLE_COUNT,
    ensures
        r@ == shown_question(q@),
{
    match q {
        Question::MultipleChoice {
            id,
            prompt,
            image,
            image_alt,
            time_limit_seconds,
            reading_time_seconds,
            double_points,
            options,
            correct_option_id,
        } => HostQuestion::MultipleChoice {
            id: id.clone(),
            prompt: prompt.clone(),
            image_url: image_address(image),
            image_alt: copy_text_option(image_alt),
            time_limit_seconds: *time_limit_seconds,
            reading_time_seconds: *reading_time_seconds,
            double_points: *double_points,
            options: styled_options(options, correct_option_id.as_str()),
            correct_option_id: correct_option_id.clone(),
        },
        Question::FreeText {
            id,
            prompt,
            image,
            image_alt,
            time_limit_seconds,
            reading_time_seconds,
            double_points,
            accepted_answers,
        } => HostQuestion::FreeText {
            id: id.clone(),
            prompt: prompt.clone(),
            image_url: image_address(image),
            image_alt: copy_text_option(image_alt),
            time_limit_seconds: *time_limit_seconds,
            reading_time_seconds: *reading_time_seconds,
            double_points: *double_points,
            accepted_answers: copy_texts(accepted_answers),
        },
    }
}

fn chosen(subs: &Vec<Submission>, qi: usize, id: &str) -> (n: usize)
    ensures
        n == chosen_count(subs.deep_view(), qi, id@, subs@.len() as nat),
        n <= subs@.len(),
{
    let ghost s = subs.deep_view();
    let mut n: usize = 0;
    let mut k: usize = 0;
    while k < subs.len()
        invariant
            k <= s.len(),
            s == subs.deep_view(),
            n == chosen_count(s, qi, id@, k as nat),
            n <= k,
        decreases s.len() - k,
    {
        assert(s[k as int] == subs@[k as int]@);
        let item = &subs[k];
        if item.question_index == qi {
            match &item.answer {
                SubmittedAnswer::MultipleChoice { option_id } => {
                    if same_text(option_id.as_str(), id) {
                        n = n + 1;
                    }
                },
                SubmittedAnswer::FreeText { .. } => {},
            }
        }
        k = k + 1;
    }
    n
}

fn judged(subs: &Vec<Submission>, qi: usize, verdict: bool) -> (n: usize)
    ensures
        n == judged_count(subs.deep_view(), qi, verdict, subs@.len() as nat),
        n <= subs@.len(),
{
    let ghost s = subs.deep_view();
    let mut n: usize = 0;
    let mut k: usize = 0;
    while k < subs.len()
        invariant
            k <= s.len(),
            s == subs.deep_view(),
            n == judged_count(s, qi, verdict, k as nat),
            n <= k,
        decreases s.len() - k,
    {
        assert(s[k as int] == subs@[k as int]@);
        let item = &subs[k];
        if item.question_index == qi {
            match item.correct {
                Some(c) => {
                    if c == verdict {
                        n = n + 1;
                    }
                },
                None => {},
            }
        }
        k = k + 1;
    }
    n
}

impl Engine {
    fn unanswered_count(&self, qi: usize) -> (n: usize)
        ensures
            n == unanswered(self@.state, qi),
    {
        let ghost ps = self.state.players@;
        let ghost subs = self.state.submissions.deep_view();
        let mut eligible: usize = 0;
        let mut i: usize = 0;
        while i < self.state.players.len()
            invariant
                i <= ps.len(),
                ps == self.state.players@,
                eligible == eligible_count(ps, qi, i as nat),
                eligible <= i,
            decreases ps.len() - i,
        {
            if self.state.players.at(i).eligible_from_question <= qi {
                eligible = eligible + 1;
            }
            i = i + 1;
        }
        let mut answered: usize = 0;
        let mut k: usize = 0;
        while k < self.state.submissions.len()
            invariant
                k <= subs.len(),
                subs == self.state.submissions.deep_view(),
                answered == submitted_count(subs, qi, k as nat),
                answered <= k,
            decreases subs.len() - k,
        {
            assert(subs[k as int] == self.state.submissions@[k as int]@);
            if self.state.submissions[k].question_index == qi {
                answered = answered + 1;
            }
            k = k + 1;
        }
        if eligible >= answered {
            eligible - answered
        } else {
            0
        }
    }

    fn option_tallies(&self, qi: usize, options: &Vec<Choice>, correct_option_id: &str) -> (r: Vec<OptionTally>)
        requires
            options@.len() <= ANSWER_STYLE_COUNT,
        ensures
            r.deep_view() == Seq::new(
                options@.len(),
                |k: int| option_tally(self@.state, qi, k, options.deep_view()[k], correct_option_id@),
            ),
    {
        let mut r: Vec<OptionTally> = Vec::new();
        let mut i: usize = 0;
        while i < options.len()
            invariant
                i <= options@.len() <= ANSWER_STYLE_COUNT,
                r@.len() == i,
                forall|k: int| 0 <= k < i ==> (#[trigger] r@[k])@ == option_tally(
                    self@.state,
                    qi,
                    k,
                    options.deep_view()[k],
                    correct_option_id@,
                ),
            decreases options@.len() - i,
        {
            let c = &options[i];
            let (shape, color) = answer_style_of(i);
            r.push(OptionTally {
                id: c.id.clone(),
                text: c.text.clone(),
                count: chosen(&self.state.submissions, qi, c.id.as_str()),
                correct: same_text(c.id.as_str(), correct_option_id),
                number: i + 1,
                shape,
                color,
            });
            i = i + 1;
        }
        assert(r.deep_view() =~= Seq::new(
            options@.len(),
            |k: int| option_tally(self@.state, qi, k, options.deep_view()[k], correct_option_id@),
        ));
        r
    }

    /// How the answers to question `index` of the active game are spread:
    /// per option how often it was chosen, or how many free-text answers
    /// were right and wrong, and how many allowed players have not answered.
    pub fn distribution(&self, index: usize) -> (r: Option<Distribution>)
        requires
            styled(question_at(self@.state, index)),
        ensures
            (match r {
                Some(d) => Some(d@),
                None => None,
            }) == tallies(self@.state, index),
    {
        let g = match &self.state.active_game {
            Some(g) => g,
            None => return None,
        };
        if index >= g.questions.len() {
            return None;
        }
        assert(g.questions.deep_view()[index as int] == g.questions@[index as int]@);
        match &g.questions[index] {
            Question::MultipleChoice { options, correct_option_id, .. } => {
                let options = self.option_tallies(index, options, correct_option_id.as_str());
                Some(Distribution::MultipleChoice { options, unanswered: self.unanswered_count(index) })
            },
            Question::FreeText { .. } => {
                let correct = judged(&self.state.submissions, index, true);
                let incorrect = judged(&self.state.submissions, index, false);
                Some(Distribution::FreeText { correct, incorrect, unanswered: self.unanswered_count(index) })
            },
        }
    }

    fn roster_of(&self, lines: &Vec<Ranking>) -> (r: Vec<RosterEntry>)
        ensures
            r.deep_view() == Seq::new(
                lines@.len(),
                |k: int| roster_entry(lines.deep_view()[k], self@.connected_players),
            ),
    {
        let mut r: Vec<RosterEntry> = Vec::new();
        let mut i: usize = 0;
        while i < lines.len()
            invariant
                i <= lines@.len(),
                r@.len() == i,
                forall|k: int| 0 <= k < i ==> (#[trigger] r@[k])@ == roster_entry(
                    lines.deep_view()[k],
                    self@.connected_players,
                ),
            decreases lines@.len() - i,
        {
            let line = &lines[i];
            r.push(RosterEntry {
                id: line.id.clone(),
                username: line.username.clone(),
                score: line.score,
                rank: line.rank,
                rank_delta: line.rank_delta,
                connected: self.connected_players.count(line.id.as_str()) > 0,
            });
            i = i + 1;
        }
        assert(r.deep_view() =~= Seq::new(
            lines@.len(),
            |k: int| roster_entry(lines.deep_view()[k], self@.connected_players),
        ));
        r
    }

    /// Everything the host's screen shows at server time `server_time_ms`.
    pub fn host_snapshot(&self, server_time_ms: i64) -> (r: HostSnapshot)
        requires
            well_formed(self@.state),
            host_picture_fits(self@.state),
        ensures
            r@ == host_picture(self@, server_time_ms),
    {
        let rankings = self.rankings();
        let players = self.roster_of(&rankings);
        assert(players.deep_view() =~= roster(self@));
        let games = game_summaries(&self.catalog.games);
        let question = match self.current_question() {
            Some(q) => Some(host_question(q)),
            None => None,
        };
        let index = self.current_question_index();
        let question_number = match index {
            Some(i) => Some(i + 1),
            None => None,
        };
        let question_count = match &self.state.active_game {
            Some(g) => Some(g.questions.len()),
            None => None,
        };
        let distribution = match index {
            Some(i) => self.distribution(i),
            None => None,
        };
        let join_url = match &self.state.advertised_url {
            Some(u) => Some(u.clone()),
            None => if self.join_urls.len() > 0 {
                Some(self.join_urls[0].clone())
            } else {
                None
            },
        };
        HostSnapshot {
            revision: self.state.revision,
            server_time_ms,
            phase: self.state.phase.duplicate(),
            games,
            players,
            question,
            question_number,
            question_count,
            distribution,
            join_urls: copy_texts(&self.join_urls),
            join_url,
            network_warning: copy_text_option(&self.state.network_warning),
            host_connected: self.host_connections > 0,
        }
    }
}

// ---------------------------------------------------------------------------
// A player's picture
// ---------------------------------------------------------------------------

/// An option of the open question as a player's answer pad shows it.
#[derive(Debug)]
pub struct ControlOption {
    pub id: String,
    pub number: usize,
    pub shape: String,
    pub color: String,
}

pub struct ControlOptionView {
    pub id: Seq<char>,
    pub number: usize,
    pub shape: Seq<char>,
    pub color: Seq<char>,
}

impl View for ControlOption {
    type V = ControlOptionView;

    open spec fn view(&self) -> ControlOptionView {
        ControlOptionView { id: self.id@, number: self.number, shape: self.shape@, color: self.color@ }
    }
}

impl DeepView for ControlOption {
    type V = ControlOptionView;

    open spec fn deep_view(&self) -> ControlOptionView {
        self@
    }
}

/// The answer pad a player gets while answers are open.
#[derive(Debug)]
pub enum Controls {
    MultipleChoice { options: Vec<ControlOption> },
    FreeText,
}

pub enum ControlsView {
    MultipleChoice { options: Seq<ControlOptionView> },
    FreeText,
}

impl View for Controls {
    type V = ControlsView;

    open spec fn view(&self) -> ControlsView {
        match self {
            Controls::MultipleChoice { options } => ControlsView::MultipleChoice {
                options: options.deep_view(),
            },
            Controls::FreeText => ControlsView::FreeText,
        }
    }
}

/// What a player's own answer turned out to be, set against the question:
/// the 1-based numbers of the chosen and the correct option, or the text
/// given and the first accepted answer; `Mismatched` when the answer is not
/// of the question's kind.
#[derive(Debug)]
pub enum AnswerReveal {
    MultipleChoice { selected: Option<usize>, correct: Option<usize> },
    FreeText { submitted: String, accepted: Option<String> },
    Mismatched,
}

pub enum AnswerRevealView {
    MultipleChoice { selected: Option<usize>, correct: Option<usize> },
    FreeText { submitted: Seq<char>, accepted: Option<Seq<char>> },
    Mismatched,
}

impl View for AnswerReveal {
    type V = AnswerRevealView;

    open spec fn view(&self) -> AnswerRevealView {
        match self {
            AnswerReveal::MultipleChoice { selected, correct } => AnswerRevealView::MultipleChoice {
                selected: *selected,
                correct: *correct,
            },
            AnswerReveal::FreeText { submitted, accepted } => AnswerRevealView::FreeText {
                submitted: submitted@,
                accepted: accepted.deep_view(),
            },
            AnswerReveal::Mismatched => AnswerRevealView::Mismatched,
        }
    }
}

/// How a player's answer was judged, once answers are revealed.
#[derive(Debug)]
pub struct AnswerResult {
    pub correct: Option<bool>,
    pub points: Option<i64>,
    pub answer: AnswerReveal,
}

pub struct AnswerResultView {
    pub correct: Option<bool>,
    pub points: Option<i64>,
    pub answer: AnswerRevealView,
}

impl View for AnswerResult {
    type V = AnswerResultView;

    open spec fn view(&self) -> AnswerResultView {
        AnswerResultView { correct: self.correct, points: self.points, answer: self.answer@ }
    }
}

/// A player's own line: identity, score, rank and places gained.
#[derive(Debug)]
pub struct Standing {
    pub id: String,
    pub username: String,
    pub score: i64,
    pub rank: Option<usize>,
    pub rank_delta: Option<i64>,
}

pub struct StandingView {
    pub id: Seq<char>,
    pub username: Seq<char>,
    pub score: i64,
    pub rank: Option<usize>,
    pub rank_delta: Option<i64>,
}

impl View for Standing {
    type V = StandingView;

    open spec fn view(&self) -> StandingView {
        StandingView {
            id: self.id@,
            username: self.username@,
            score: self.score,
            rank: self.rank,
            rank_delta: self.rank_delta,
        }
    }
}

/// The player ranked just ahead, and by how many points.
#[derive(Debug)]
pub struct Ahead {
    pub username: String,
    pub gap: i64,
}

pub struct AheadView {
    pub username: Seq<char>,
    pub gap: i64,
}

impl View for Ahead {
    type V = AheadView;

    open spec fn view(&self) -> AheadView {
        AheadView { username: self.username@, gap: self.gap }
    }
}

/// Everything a player's screen shows.
#[derive(Debug)]
pub struct PlayerSnapshot {
    pub revision: u64,
    pub server_time_ms: i64,
    pub phase: Phase,
    pub me: Standing,
    pub player_count: usize,
    pub eligible: bool,
    pub submitted: bool,
    pub controls: Option<Controls>,
    pub result: Option<AnswerResult>,
    pub question_number: Option<usize>,
    pub question_count: Option<usize>,
    pub ahead: Option<Ahead>,
}

pub struct PlayerSnapshotView {
    pub revision: u64,
    pub server_time_ms: i64,
    pub phase: PhaseView,
    pub me: StandingView,
    pub player_count: usize,
    pub eligible: bool,
    pub submitted: bool,
    pub controls: Option<ControlsView>,
    pub result: Option<AnswerResultView>,
    pub question_number: Option<usize>,
    pub question_count: Option<usize>,
    pub ahead: Option<AheadView>,
}

impl View for PlayerSnapshot {
    type V = PlayerSnapshotView;

    open spec fn view(&self) -> PlayerSnapshotView {
        PlayerSnapshotView {
            revision: self.revision,
            server_time_ms: self.server_time_ms,
            phase: self.phase@,
            me: self.me@,
            player_count: self.player_count,
            eligible: self.eligible,
            submitted: self.submitted,
            controls: match self.controls {
                Some(c) => Some(c@),
                None => None,
            },
            result: match self.result {
                Some(r) => Some(r@),
                None => None,
            },
            question_number: self.question_number,
            question_count: self.question_count,
            ahead: match self.ahead {
                Some(a) => Some(a@),
                None => None,
            },
        }
    }
}

/// Option `c` in slot `slot` of a player's answer pad.
pub open spec fn control_option(slot: int, c: ChoiceView) -> ControlOptionView {
    ControlOptionView {
        id: c.id,
        number: (slot + 1) as usize,
        shape: answer_style(slot).0,
        color: answer_style(slot).1,
    }
}

/// A player may answer the question the phase is about (any player may
/// when the phase is about none).
pub open spec fn may_answer(p: PlayerView, current: Option<usize>) -> bool {
    match current {
        Some(qi) => p.eligible_from_question <= qi,
        None => true,
    }
}

/// The answer pad: only while answers are open, and only for a player who
/// may answer.
pub open spec fn controls_for(st: GameStateView, eligible: bool) -> Option<ControlsView> {
    if st.phase is Answering && eligible {
        match current_question(st) {
            Some(QuestionView::MultipleChoice { options, .. }) => Some(
                ControlsView::MultipleChoice {
                    options: Seq::new(options.len(), |k: int| control_option(k, options[k])),
                },
            ),
            Some(QuestionView::FreeText { .. }) => Some(ControlsView::FreeText),
            None => None,
        }
    } else {
        None
    }
}

/// The first slot whose option has identifier `id`.
pub open spec fn first_option(options: Seq<ChoiceView>, id: Seq<char>) -> Option<int> {
    if exists|k: int| 0 <= k < options.len() && options[k].id == id {
        Some(
            choose|k: int|
                0 <= k < options.len() && options[k].id == id && forall|j: int|
                    0 <= j < k ==> options[j].id != id,
        )
    } else {
        None
    }
}

/// A 0-based slot as a 1-based number.
pub open spec fn slot_number(k: Option<int>) -> Option<usize> {
    match k {
        Some(k) => Some((k + 1) as usize),
        None => None,
    }
}

/// Answer `a` set against question `q`.
pub open spec fn answer_reveal(a: AnswerView, q: Option<QuestionView>) -> AnswerRevealView {
    match a {
        AnswerView::MultipleChoice { option_id } => match q {
            Some(QuestionView::MultipleChoice { options, correct_option_id, .. }) => AnswerRevealView::MultipleChoice {
                selected: slot_number(first_option(options, option_id)),
                correct: slot_number(first_option(options, correct_option_id)),
            },
            _ => AnswerRevealView::Mismatched,
        },
        AnswerView::FreeText { text } => match q {
            Some(QuestionView::FreeText { accepted_answers, .. }) => AnswerRevealView::FreeText {
                submitted: text,
                accepted: if accepted_answers.len() > 0 {
                    Some(accepted_answers[0])
                } else {
                    None
                },
            },
            _ => AnswerRevealView::Mismatched,
        },
    }
}

/// The position of the first submission of player `id` to question `qi`.
pub open spec fn first_submission(subs: Seq<SubmissionView>, id: Seq<char>, qi: usize) -> Option<int> {
    if exists|k: int| 0 <= k < subs.len() && subs[k].player_id == id && subs[k].question_index == qi {
        Some(
            choose|k: int|
                0 <= k < subs.len() && subs[k].player_id == id && subs[k].question_index == qi
                    && forall|j: int|
                    0 <= j < k ==> !(subs[j].player_id == id && subs[j].question_index == qi),
        )
    } else {
        None
    }
}

/// A phase in which the current question's answers are shown.
pub open spec fn reveals(phase: PhaseView) -> bool {
    phase is Reveal || phase is Leaderboard || phase is FinalLeaderboard
}

/// The picture of the player at roster position `i` at server time `now`:
/// their standing, whether they may answer and have answered, their answer
/// pad while answers are open, how their answer was judged once revealed,
/// and who is just ahead of them.
pub open spec fn player_picture(st: GameStateView, i: int, now: i64) -> PlayerSnapshotView {
    let p = st.players[i];
    let current = current_question_index(st);
    let eligible = may_answer(p, current);
    let submission = match current {
        Some(qi) => first_submission(st.submissions, p.id, qi),
        None => None,
    };
    let lb = leaderboard(st.players);
    let k = place_of(st.players, i);
    PlayerSnapshotView {
        revision: st.revision,
        server_time_ms: now,
        phase: st.phase,
        me: StandingView {
            id: p.id,
            username: p.username,
            score: p.score,
            rank: Some(lb[k].rank),
            rank_delta: Some(lb[k].rank_delta),
        },
        player_count: st.players.len() as usize,
        eligible,
        submitted: submission is Some,
        controls: controls_for(st, eligible),
        result: match submission {
            Some(s) => if reveals(st.phase) {
                Some(
                    AnswerResultView {
                        correct: st.submissions[s].correct,
                        points: st.submissions[s].points,
                        answer: answer_reveal(st.submissions[s].answer, current_question(st)),
                    },
                )
            } else {
                None
            },
            None => None,
        },
        question_number: question_number(st),
        question_count: question_count(st),
        ahead: if k > 0 {
            Some(AheadView { username: lb[k - 1].username, gap: (lb[k - 1].score - p.score) as i64 })
        } else {
            None
        },
    }
}

/// The error for an identifier no player has.
pub open spec fn missing_player() -> Seq<char> {
    "Player session was not found."@
}

/// The picture of player `player_id`, or an error when there is none.
pub open spec fn player_view(st: GameStateView, player_id: Seq<char>, now: i64) -> Result<PlayerSnapshotView, Seq<char>> {
    match index_of(st.players, player_id) {
        Some(i) => Ok(player_picture(st, i, now)),
        None => Err(missing_player()),
    }
}

/// The picture of player `player_id` can be built: the current question's
/// number fits, the answer pad (if any) has a style for each option, and
/// the gap to the player just ahead fits in `i64`.
pub open spec fn player_picture_fits(st: GameStateView, player_id: Seq<char>) -> bool {
    &&& numbered(st)
    &&& match index_of(st.players, player_id) {
        Some(i) => {
            &&& (st.phase is Answering && may_answer(st.players[i], current_question_index(st)))
                ==> styled(current_question(st))
            &&& place_of(st.players, i) > 0 ==> in_i64(
                leaderboard(st.players)[place_of(st.players, i) - 1].score - st.players[i].score,
            )
        },
        None => true,
    }
}

/// The view of a player picture's result.
pub open spec fn picture_result(r: Result<PlayerSnapshot, String>) -> Result<PlayerSnapshotView, Seq<char>> {
    match r {
        Ok(s) => Ok(s@),
        Err(e) => Err(e@),
    }
}

// ---------------------------------------------------------------------------
// Building a player's picture
// ---------------------------------------------------------------------------

fn answer_pad(options: &Vec<Choice>) -> (r: Vec<ControlOption>)
    requires
        options@.len() <= ANSWER_STYLE_COUNT,
    ensures
        r.deep_view() == Seq::new(options@.len(), |k: int| control_option(k, options.deep_view()[k])),
{
    let mut r: Vec<ControlOption> = Vec::new();
    let mut i: usize = 0;
    while i < options.len()
        invariant
            i <= options@.len() <= ANSWER_STYLE_COUNT,
            r@.len() == i,
            forall|k: int| 0 <= k < i ==> (#[trigger] r@[k])@ == control_option(k, options.deep_view()[k]),
        decreases options@.len() - i,
    {
        let (shape, color) = answer_style_of(i);
        r.push(ControlOption { id: options[i].id.clone(), number: i + 1, shape, color });
        i = i + 1;
    }
    assert(r.deep_view() =~= Seq::new(options@.len(), |k: int| control_option(k, options.deep_view()[k])));
    r
}

fn option_slot(options: &Vec<Choice>, id: &str) -> (r: Option<usize>)
    ensures
        (match r {
            Some(k) => Some(k as int),
            None => None,
        }) == first_option(options.deep_view(), id@),
        r matches Some(k) ==> k < options@.len(),
{
    let ghost s = options.deep_view();
    let mut k: usize = 0;
    while k < options.len()
        invariant
            k <= s.len(),
            s == options.deep_view(),
            forall|j: int| 0 <= j < k ==> s[j].id != id@,
        decreases s.len() - k,
    {
        if same_text(options[k].id.as_str(), id) {
            assert(s[k as int].id == id@);
            let ghost c = choose|c: int|
                0 <= c < s.len() && s[c].id == id@ && forall|j: int| 0 <= j < c ==> s[j].id != id@;
            assert(0 <= k < s.len() && s[k as int].id == id@ && forall|j: int| 0 <= j < k ==> s[j].id != id@);
            assert(c == k) by {
                if c < k {
                    assert(s[c].id != id@);
                } else if c > k {
                    assert(s[k as int].id != id@);
                }
            }
            return Some(k);
        }
        k = k + 1;
    }
    None
}

fn slot_to_number(k: Option<usize>, len: usize) -> (r: Option<usize>)
    requires
        k matches Some(k) ==> k < len,
    ensures
        r == slot_number(match k {
            Some(k) => Some(k as int),
            None => None,
        }),
{
    match k {
        Some(k) => Some(k + 1),
        None => None,
    }
}

/// A player's answer set against the question: which option numbers were
/// chosen and correct, or the text given and the first accepted answer.
pub fn answer_result(answer: &SubmittedAnswer, question: Option<&Question>) -> (r: AnswerReveal)
    ensures
        r@ == answer_reveal(
            answer@,
            match question {
                Some(q) => Some(q@),
                None => None,
            },
        ),
{
    match answer {
        SubmittedAnswer::MultipleChoice { option_id } => match question {
            Some(Question::MultipleChoice { options, correct_option_id, .. }) => {
                let selected = option_slot(options, option_id.as_str());
                let correct = option_slot(options, correct_option_id.as_str());
                AnswerReveal::MultipleChoice {
                    selected: slot_to_number(selected, options.len()),
                    correct: slot_to_number(correct, options.len()),
                }
            },
            _ => AnswerReveal::Mismatched,
        },
        SubmittedAnswer::FreeText { text } => match question {
            Some(Question::FreeText { accepted_answers, .. }) => {
                let accepted = if accepted_answers.len() > 0 {
                    Some(accepted_answers[0].clone())
                } else {
                    None
                };
                AnswerReveal::FreeText { submitted: text.clone(), accepted }
            },
            _ => AnswerReveal::Mismatched,
        },
    }
}

fn submission_of(subs: &Vec<Submission>, player_id: &str, qi: usize) -> (r: Option<usize>)
    ensures
        (match r {
            Some(k) => Some(k as int),
            None => None,
        }) == first_submission(subs.deep_view(), player_id@, qi),
        r matches Some(k) ==> k < subs@.len(),
{
    let ghost s = subs.deep_view();
    let mut k: usize = 0;
    while k < subs.len()
        invariant
            k <= s.len(),
            s == subs.deep_view(),
            forall|j: int| 0 <= j < k ==> !(s[j].player_id == player_id@ && s[j].question_index == qi),
        decreases s.len() - k,
    {
        assert(s[k as int] == subs@[k as int]@);
        if subs[k].question_index == qi && same_text(subs[k].player_id.as_str(), player_id) {
            let ghost c = choose|c: int|
                0 <= c < s.len() && s[c].player_id == player_id@ && s[c].question_index == qi
                    && forall|j: int|
                    0 <= j < c ==> !(s[j].player_id == player_id@ && s[j].question_index == qi);
            assert(0 <= k < s.len() && s[k as int].player_id == player_id@ && s[k as int].question_index
                == qi && forall|j: int|
                0 <= j < k ==> !(s[j].player_id == player_id@ && s[j].question_index == qi));
            assert(c == k) by {
                if c < k {
                    assert(!(s[c].player_id == player_id@ && s[c].question_index == qi));
                } else if c > k {
                    assert(!(s[k as int].player_id == player_id@ && s[k as int].question_index == qi));
                }
            }
            return Some(k);
        }
        k = k + 1;
    }
    None
}

pub(crate) fn line_of(lines: &Vec<Ranking>, id: &str) -> (r: Option<usize>)
    ensures
        r matches Some(k) ==> k < lines@.len() && lines.deep_view()[k as int].id == id@,
        r is None ==> forall|k: int| 0 <= k < lines@.len() ==> lines.deep_view()[k].id != id@,
{
    let mut k: usize = 0;
    while k < lines.len()
        invariant
            k <= lines@.len(),
            forall|j: int| 0 <= j < k ==> lines.deep_view()[j].id != id@,
        decreases lines@.len() - k,
    {
        if same_text(lines[k].id.as_str(), id) {
            return Some(k);
        }
        k = k + 1;
    }
    None
}

/// In a roster in identifier order, the leaderboard line carrying the
/// identifier of the player at position `i` is the one at that player's place.
pub(crate) proof fn lemma_line_place(ps: Seq<PlayerView>, i: int, k: int)
    requires
        ids_sorted(ps),
        is_ranking(ps, ranking(ps)),
        0 <= i < ps.len(),
        0 <= k < ps.len(),
        leaderboard(ps)[k].id == ps[i].id,
    ensures
        k == place_of(ps, i),
        ranking(ps)[k] == i,
{
    let o = ranking(ps);
    let j = o[k];
    assert(0 <= j < ps.len());
    lemma_index_of_sorted(ps, j, ps[i].id);
    lemma_index_of_sorted(ps, i, ps[i].id);
    assert(j == i);
    let c = choose|c: int| 0 <= c < o.len() && o[c] == i;
    assert(0 <= k < o.len() && o[k] == i);
    assert(c == k) by {
        if c < k {
            assert(o[c] != o[k]);
        } else if c > k {
            assert(o[k] != o[c]);
        }
    }
}

/// The player at position `i` has a leaderboard line.
pub(crate) proof fn lemma_has_line(ps: Seq<PlayerView>, i: int)
    requires
        is_ranking(ps, ranking(ps)),
        0 <= i < ps.len(),
    ensures
        exists|k: int| 0 <= k < ps.len() && leaderboard(ps)[k].id == ps[i].id,
{
    let o = ranking(ps);
    assert(o.contains(i));
    let k = choose|k: int| 0 <= k < o.len() && o[k] == i;
    assert(leaderboard(ps)[k].id == ps[i].id);
}

impl Engine {
    fn controls(&self, eligible: bool) -> (r: Option<Controls>)
        requires
            (self@.state.phase is Answering && eligible) ==> styled(current_question(self@.state)),
        ensures
            (match r {
                Some(c) => Some(c@),
                None => None,
            }) == controls_for(self@.state, eligible),
    {
        match &self.state.phase {
            Phase::Answering { .. } => {},
            _ => return None,
        }
        if !eligible {
            return None;
        }
        match self.current_question() {
            Some(Question::MultipleChoice { options, .. }) => Some(
                Controls::MultipleChoice { options: answer_pad(options) },
            ),
            Some(Question::FreeText { .. }) => Some(Controls::FreeText),
            None => None,
        }
    }

    /// Everything the screen of player `player_id` shows at server time
    /// `server_time_ms`; an error when no player has that identifier.
    pub fn player_snapshot(&self, player_id: &str, server_time_ms: i64) -> (r: Result<PlayerSnapshot, String>)
        requires
            well_formed(self@.state),
            player_picture_fits(self@.state, player_id@),
        ensures
            picture_result(r) == player_view(self@.state, player_id@, server_time_ms),
    {
        proof {
            use_type_invariant(&self.state.players);
        }
        let ghost st = self@.state;
        let ghost ps = st.players;
        let i = match self.state.players.position(player_id) {
            Some(i) => i,
            None => return Err(owned("Player session was not found.")),
        };
        let player = self.state.players.at(i);
        let current = self.current_question_index();
        let eligible = match current {
            Some(qi) => player.eligible_from_question <= qi,
            None => true,
        };
        let submission = match current {
            Some(qi) => submission_of(&self.state.submissions, player_id, qi),
            None => None,
        };
        let controls = self.controls(eligible);
        let reveal = match &self.state.phase {
            Phase::Reveal { .. } => true,
            Phase::Leaderboard { .. } => true,
            Phase::FinalLeaderboard => true,
            _ => false,
        };
        let result = match submission {
            Some(s) => if reveal {
                let item = &self.state.submissions[s];
                assert(st.submissions[s as int] == item@);
                Some(
                    AnswerResult {
                        correct: item.correct,
                        points: item.points,
                        answer: answer_result(&item.answer, self.current_question()),
                    },
                )
            } else {
                None
            },
            None => None,
        };
        let rankings = self.rankings();
        let line = line_of(&rankings, player_id);
        proof {
            let k = place_of(ps, i as int);
            assert(rankings.deep_view().len() == rankings@.len());
            match line {
                Some(k2) => {
                    lemma_line_place(ps, i as int, k2 as int);
                },
                None => {
                    lemma_has_line(ps, i as int);
                },
            }
        }
        let (rank, rank_delta, ahead) = match line {
            Some(k) => {
                let entry = &rankings[k];
                assert(entry@ == leaderboard(ps)[k as int]);
                assert(entry.score == ps[i as int].score && entry.rank == k + 1);
                assert(index_of(ps, player_id@) == Some(i as int));
                let ahead = if entry.rank <= 1 {
                    None
                } else {
                    let other = &rankings[k - 1];
                    Some(Ahead { username: other.username.clone(), gap: other.score - entry.score })
                };
                (Some(entry.rank), Some(entry.rank_delta), ahead)
            },
            None => (None, None, None),
        };
        let question_number = match current {
            Some(qi) => Some(qi + 1),
            None => None,
        };
        let question_count = match &self.state.active_game {
            Some(g) => Some(g.questions.len()),
            None => None,
        };
        let snapshot = PlayerSnapshot {
            revision: self.state.revision,
            server_time_ms,
            phase: self.state.phase.duplicate(),
            me: Standing {
                id: player.id.clone(),
                username: player.username.clone(),
                score: player.score,
                rank,
                rank_delta,
            },
            player_count: self.state.players.len(),
            eligible,
            submitted: submission.is_some(),
            controls,
            result,
            question_number,
            question_count,
            ahead,
        };
        Ok(snapshot)
    }
}

// ---------------------------------------------------------------------------
// What a connection is sent
// ---------------------------------------------------------------------------

/// The picture sent to a connection: the host's or a player's.
#[derive(Debug)]
pub enum Snapshot {
    Host(HostSnapshot),
    Player(PlayerSnapshot),
}

pub enum SnapshotView {
    Host(HostSnapshotView),
    Player(PlayerSnapshotView),
}

impl View for Snapshot {
    type V = SnapshotView;

    open spec fn view(&self) -> SnapshotView {
        match self {
            Snapshot::Host(h) => SnapshotView::Host(h@),
            Snapshot::Player(p) => SnapshotView::Player(p@),
        }
    }
}

/// The error for a host connection whose token is no longer the host's.
pub open spec fn transferred_error() -> Seq<char> {
    "host control was transferred"@
}

/// What `identity` is sent at server time `now`: the host's picture while
/// its token is still the host's, or the player's picture.
pub open spec fn snapshot_view(e: EngineView, identity: IdentityView, now: i64) -> Result<SnapshotView, Seq<char>> {
    match identity {
        IdentityView::Host(token_hash) => if host_current(e.state, token_hash) {
            Ok(SnapshotView::Host(host_picture(e, now)))
        } else {
            Err(transferred_error())
        },
        IdentityView::Player(id) => match player_view(e.state, id, now) {
            Ok(p) => Ok(SnapshotView::Player(p)),
            Err(m) => Err(m),
        },
    }
}

/// The picture for `identity` can be built.
pub open spec fn snapshot_fits(st: GameStateView, identity: IdentityView) -> bool {
    match identity {
        IdentityView::Host(token_hash) => host_current(st, token_hash) ==> host_picture_fits(st),
        IdentityView::Player(id) => player_picture_fits(st, id),
    }
}

/// The view of a snapshot's result.
pub open spec fn snapshot_result(r: Result<Snapshot, String>) -> Result<SnapshotView, Seq<char>> {
    match r {
        Ok(s) => Ok(s@),
        Err(e) => Err(e@),
    }
}

impl Engine {
    /// The picture to send to `identity` at server time `server_time_ms`.
    pub fn snapshot_for(&self, identity: &ClientIdentity, server_time_ms: i64) -> (r: Result<Snapshot, String>)
        requires
            well_formed(self@.state),
            snapshot_fits(self@.state, identity@),
        ensures
            snapshot_result(r) == snapshot_view(self@, identity@, server_time_ms),
    {
        match identity {
            ClientIdentity::Host(token_hash) => {
                let current = match &self.state.host_token_hash {
                    Some(t) => same_text(t.as_str(), token_hash.as_str()),
                    None => false,
                };
                if current {
                    Ok(Snapshot::Host(self.host_snapshot(server_time_ms)))
                } else {
                    Err(owned("host control was transferred"))
                }
            },
            ClientIdentity::Player(id) => match self.player_snapshot(id.as_str(), server_time_ms) {
                Ok(p) => Ok(Snapshot::Player(p)),
                Err(m) => Err(m),
            },
        }
    }
}

} // verus!
