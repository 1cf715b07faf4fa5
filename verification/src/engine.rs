//! The game engine: the event's state and the transitions the host, the
//! players and the clock cause.
//!
//! Each transition is stated as a function on the engine's view, and each
//! executable method is proved to compute exactly that function.
use vstd::prelude::*;
use crate::content::{Catalog, CatalogView, game_index};
use crate::matching::{answer_correct, answer_is_correct};
use crate::model::{AnswerView, Choice, ChoiceView, Game, GameView, Phase, PhaseView, Player, PlayerView, Question,
    QuestionView, Submission, SubmissionView, SubmittedAnswer};
use crate::players::{ConnectionCounts, PlayerMap, index_of, lemma_stored, stored};
use crate::scoring::{correct_points, speed_points_of};
use crate::text::{blank, char_count, is_blank, owned, same_text, trim, trimmed, is_control_char,
    is_control, lowercase, str_lowercase};

verus! {

// ---------------------------------------------------------------------------
// State
// ---------------------------------------------------------------------------

/// Everything the event remembers.
#[derive(Debug)]
pub struct GameState {
    pub revision: u64,
    pub host_token_hash: Option<String>,
    pub phase: Phase,
    pub active_game: Option<Game>,
    pub players: PlayerMap,
    pub submissions: Vec<Submission>,
    pub next_join_order: u64,
    pub advertised_url: Option<String>,
    pub network_warning: Option<String>,
}

pub struct GameStateView {
    pub revision: u64,
    pub host_token_hash: Option<Seq<char>>,
    pub phase: PhaseView,
    pub active_game: Option<GameView>,
    pub players: Seq<PlayerView>,
    pub submissions: Seq<SubmissionView>,
    pub next_join_order: u64,
    pub advertised_url: Option<Seq<char>>,
    pub network_warning: Option<Seq<char>>,
}

impl View for GameState {
    type V = GameStateView;

    open spec fn view(&self) -> GameStateView {
        GameStateView {
            revision: self.revision,
            host_token_hash: self.host_token_hash.deep_view(),
            phase: self.phase@,
            active_game: match self.active_game {
                Some(g) => Some(g@),
                None => None,
            },
            players: self.players@,
            submissions: self.submissions.deep_view(),
            next_join_order: self.next_join_order,
            advertised_url: self.advertised_url.deep_view(),
            network_warning: self.network_warning.deep_view(),
        }
    }
}

/// The state of an event nobody has joined: no host, no players, no game.
pub open spec fn fresh_state() -> GameStateView {
    GameStateView {
        revision: 0,
        host_token_hash: None,
        phase: PhaseView::Selection,
        active_game: None,
        players: Seq::empty(),
        submissions: Seq::empty(),
        next_join_order: 0,
        advertised_url: None,
        network_warning: None,
    }
}

impl Default for GameState {
    fn default() -> (r: GameState)
        ensures
            r@ == fresh_state(),
    {
        let r = GameState {
            revision: 0,
            host_token_hash: None,
            phase: Phase::Selection,
            active_game: None,
            players: PlayerMap::new(),
            submissions: Vec::new(),
            next_join_order: 0,
            advertised_url: None,
            network_warning: None,
        };
        assert(r.submissions.deep_view() =~= Seq::<SubmissionView>::empty());
        r
    }
}

impl GameState {
    /// The state a server starts in: a fresh event advertising the first
    /// join address (if any) and showing the network warning (if any).
    pub fn starting(join_urls: &Vec<String>, network_warning: Option<String>) -> (r: GameState)
        ensures
            r@ == (GameStateView {
                advertised_url: if join_urls@.len() > 0 {
                    Some(join_urls@[0]@)
                } else {
                    None
                },
                network_warning: network_warning.deep_view(),
                ..fresh_state()
            }),
    {
        let mut state = GameState::default();
        state.advertised_url = if join_urls.len() > 0 {
            Some(join_urls[0].clone())
        } else {
            None
        };
        state.network_warning = network_warning;
        state
    }
}

/// The question the phase is about, if any (the last one on the final leaderboard).
pub open spec fn current_question_index(st: GameStateView) -> Option<usize> {
    match st.phase {
        PhaseView::Reading { question_index, .. } => Some(question_index),
        PhaseView::Answering { question_index, .. } => Some(question_index),
        PhaseView::Reveal { question_index } => Some(question_index),
        PhaseView::Leaderboard { question_index } => Some(question_index),
        PhaseView::FinalLeaderboard => match st.active_game {
            Some(g) => if g.questions.len() > 0 {
                Some((g.questions.len() - 1) as usize)
            } else {
                None
            },
            None => None,
        },
        _ => None,
    }
}

/// The state's invariant: a phase about a question names one the active game
/// has (and a leaderboard between questions one that has a successor), and
/// remembered ranks do not exceed the number of players.
pub open spec fn well_formed(st: GameStateView) -> bool {
    &&& st.players.len() <= i64::MAX
    &&& forall|i: int|
        0 <= i < st.players.len() ==> match #[trigger] st.players[i].previous_rank {
            Some(r) => r <= st.players.len(),
            None => true,
        }
    &&& match st.active_game {
        None => true,
        Some(g) => match st.phase {
            PhaseView::Reading { question_index, .. } => question_index < g.questions.len(),
            PhaseView::Answering { question_index, .. } => question_index < g.questions.len(),
            PhaseView::Reveal { question_index } => question_index < g.questions.len(),
            PhaseView::Leaderboard { question_index } => question_index + 1 < g.questions.len(),
            _ => true,
        },
    }
}

/// The revision after a change (`saturating_add(1)`).
pub open spec fn bumped(revision: u64) -> u64 {
    if revision == u64::MAX {
        revision
    } else {
        (revision + 1) as u64
    }
}

/// `st` with its revision bumped.
pub open spec fn bump_state(st: GameStateView) -> GameStateView {
    GameStateView { revision: bumped(st.revision), ..st }
}

/// The message given when a phase refers to an active game that is missing.
pub open spec fn restore_error() -> Seq<char> {
    "The active game could not be restored."@
}

// ---------------------------------------------------------------------------
// Time
// ---------------------------------------------------------------------------

/// `seconds as i64 * 1_000`, as an unbounded integer.
pub open spec fn seconds_ms(seconds: u64) -> int {
    (seconds as i64) * 1000
}

pub open spec fn in_i64(x: int) -> bool {
    i64::MIN <= x <= i64::MAX
}

/// `a + seconds as i64 * 1_000` can be computed without overflow.
pub open spec fn deadline_fits(a: i64, seconds: u64) -> bool {
    in_i64(seconds_ms(seconds)) && in_i64(a + seconds_ms(seconds))
}

fn deadline_after(a: i64, seconds: u64) -> (r: i64)
    requires
        deadline_fits(a, seconds),
    ensures
        r == a + seconds_ms(seconds),
{
    let s = #[verifier::truncate] (seconds as i64);
    a + s * 1000
}

/// `now.saturating_sub(started) as u64`.
pub open spec fn elapsed_ms(now: i64, started: i64) -> u64 {
    let d = now - started;
    let c: i64 = if d > i64::MAX {
        i64::MAX
    } else if d < i64::MIN {
        i64::MIN
    } else {
        d as i64
    };
    c as u64
}

pub(crate) fn elapsed(now: i64, started: i64) -> (r: u64)
    ensures
        r == elapsed_ms(now, started),
{
    let d: i128 = now as i128 - started as i128;
    let c: i64 = if d > i64::MAX as i128 {
        i64::MAX
    } else if d < i64::MIN as i128 {
        i64::MIN
    } else {
        d as i64
    };
    #[verifier::truncate] (c as u64)
}

// ---------------------------------------------------------------------------
// Scoring a question
// ---------------------------------------------------------------------------

/// Scoring question `qi` cannot overflow: its limit in milliseconds fits a
/// `u64`, and crediting its answers one by one keeps every total in range.
pub open spec fn scoring_fits(st: GameStateView, qi: usize) -> bool {
    match st.active_game {
        None => true,
        Some(g) => {
            &&& qi < g.questions.len()
            &&& g.questions[qi as int].time_limit_seconds() * 1000 <= u64::MAX
            &&& credits_fit(
                st.players,
                st.submissions,
                qi,
                g.questions[qi as int],
                (g.questions[qi as int].time_limit_seconds() * 1000) as nat,
                st.submissions.len(),
            )
        },
    }
}

/// Whether answer `s` to question `q` is correct.
pub open spec fn verdict(q: QuestionView, s: SubmissionView) -> bool {
    answer_correct(q, s.answer)
}

/// The points answer `s` to question `q` earns.
pub open spec fn earned(q: QuestionView, s: SubmissionView, limit_ms: nat) -> int {
    if verdict(q, s) {
        correct_points(s.response_ms as nat, limit_ms, q.double_points())
    } else {
        0
    }
}

/// Crediting `points` to the player who gave answer `s` (and, when it is
/// correct, one more correct answer and its response time) stays in range.
pub open spec fn credit_fits(ps: Seq<PlayerView>, s: SubmissionView, points: int, correct: bool) -> bool {
    match index_of(ps, s.player_id) {
        Some(i) => {
            &&& i64::MIN <= ps[i].score + points <= i64::MAX
            &&& correct ==> ps[i].correct_count + 1 <= u32::MAX
            &&& correct ==> ps[i].correct_response_ms + s.response_ms <= u64::MAX
        },
        None => true,
    }
}

/// Crediting each of the first `n` answers to question `qi`, in order,
/// stays in range.
pub open spec fn credits_fit(
    ps: Seq<PlayerView>,
    subs: Seq<SubmissionView>,
    qi: usize,
    q: QuestionView,
    limit_ms: nat,
    n: nat,
) -> bool
    decreases n,
{
    if n == 0 {
        true
    } else {
        &&& credits_fit(ps, subs, qi, q, limit_ms, (n - 1) as nat)
        &&& subs[n - 1].question_index == qi ==> credit_fits(
            scored_through(ps, subs, qi, q, limit_ms, (n - 1) as nat).0,
            subs[n - 1],
            earned(q, subs[n - 1], limit_ms),
            verdict(q, subs[n - 1]),
        )
    }
}

/// Crediting a prefix of the answers stays in range when crediting them all does.
pub(crate) proof fn lemma_credits_prefix(
    ps: Seq<PlayerView>,
    subs: Seq<SubmissionView>,
    qi: usize,
    q: QuestionView,
    limit_ms: nat,
    m: nat,
    n: nat,
)
    requires
        m <= n,
        credits_fit(ps, subs, qi, q, limit_ms, n),
    ensures
        credits_fit(ps, subs, qi, q, limit_ms, m),
    decreases n - m,
{
    if m < n {
        lemma_credits_prefix(ps, subs, qi, q, limit_ms, m, (n - 1) as nat);
    }
}

/// The roster after a scored answer of player `id` earned `points`.
pub open spec fn credited(
    ps: Seq<PlayerView>,
    id: Seq<char>,
    points: int,
    correct: bool,
    response_ms: u64,
) -> Seq<PlayerView> {
    match index_of(ps, id) {
        Some(i) => ps.update(
            i,
            PlayerView {
                score: (ps[i].score + points) as i64,
                correct_count: if correct {
                    (ps[i].correct_count + 1) as u32
                } else {
                    ps[i].correct_count
                },
                correct_response_ms: if correct {
                    (ps[i].correct_response_ms + response_ms) as u64
                } else {
                    ps[i].correct_response_ms
                },
                ..ps[i]
            },
        ),
        None => ps,
    }
}

/// Roster and submissions after the first `n` submissions to question `qi`
/// have been judged and credited, in submission order.
pub open spec fn scored_through(
    ps: Seq<PlayerView>,
    subs: Seq<SubmissionView>,
    qi: usize,
    q: QuestionView,
    limit_ms: nat,
    n: nat,
) -> (Seq<PlayerView>, Seq<SubmissionView>)
    decreases n,
{
    if n == 0 {
        (ps, subs)
    } else {
        let prev = scored_through(ps, subs, qi, q, limit_ms, (n - 1) as nat);
        let s = subs[n - 1];
        if s.question_index != qi {
            prev
        } else {
            let correct = verdict(q, s);
            let points = earned(q, s, limit_ms);
            (
                credited(prev.0, s.player_id, points, correct, s.response_ms),
                prev.1.update(
                    n - 1,
                    SubmissionView { correct: Some(correct), points: Some(points as i64), ..s },
                ),
            )
        }
    }
}

/// The state once the answers to question `qi` are judged and scored.
pub open spec fn finished(st: GameStateView, qi: usize) -> Result<GameStateView, Seq<char>> {
    match st.active_game {
        None => Err(restore_error()),
        Some(g) => {
            let q = g.questions[qi as int];
            let r = scored_through(
                st.players,
                st.submissions,
                qi,
                q,
                (q.time_limit_seconds() * 1000) as nat,
                st.submissions.len(),
            );
            Ok(GameStateView { players: r.0, submissions: r.1, ..st })
        },
    }
}

// ---------------------------------------------------------------------------
// Ranking
// ---------------------------------------------------------------------------

/// Player `a` (at roster position `ai`) ranks ahead of player `b` (at `bi`):
/// higher score, then more correct answers, then less total time on correct
/// answers, then earlier join, then earlier in identifier order.
pub open spec fn ranks_before(a: PlayerView, ai: int, b: PlayerView, bi: int) -> bool {
    a.score > b.score || (a.score == b.score && (a.correct_count > b.correct_count || (
    a.correct_count == b.correct_count && (a.correct_response_ms < b.correct_response_ms || (
    a.correct_response_ms == b.correct_response_ms && (a.joined_order < b.joined_order || (
    a.joined_order == b.joined_order && ai < bi)))))))
}

/// `o` lists every roster position once, best ranked first.
pub open spec fn is_ranking(ps: Seq<PlayerView>, o: Seq<int>) -> bool {
    &&& o.len() == ps.len()
    &&& forall|k: int| 0 <= k < o.len() ==> 0 <= #[trigger] o[k] < ps.len()
    &&& forall|k1: int, k2: int| 0 <= k1 < k2 < o.len() ==> o[k1] != o[k2]
    &&& forall|i: int| 0 <= i < ps.len() ==> #[trigger] o.contains(i)
    &&& forall|k1: int, k2: int|
        0 <= k1 < k2 < o.len() ==> ranks_before(ps[o[k1]], #[trigger] o[k1], ps[o[k2]], #[trigger] o[k2])
}

/// The ranking of a roster (there is exactly one: `lemma_ranking_unique`).
pub open spec fn ranking(ps: Seq<PlayerView>) -> Seq<int> {
    choose|o: Seq<int>| is_ranking(ps, o)
}

/// Where roster position `i` stands in the ranking (0 for first).
pub open spec fn place_of(ps: Seq<PlayerView>, i: int) -> int {
    choose|k: int| 0 <= k < ranking(ps).len() && ranking(ps)[k] == i
}

/// The roster with every player's current rank remembered as its previous rank.
pub open spec fn committed(ps: Seq<PlayerView>) -> Seq<PlayerView> {
    Seq::new(
        ps.len(),
        |i: int| PlayerView { previous_rank: Some((place_of(ps, i) + 1) as usize), ..ps[i] },
    )
}

proof fn lemma_ranking_prefix(ps: Seq<PlayerView>, o1: Seq<int>, o2: Seq<int>, k: int)
    requires
        is_ranking(ps, o1),
        is_ranking(ps, o2),
        0 <= k <= o1.len(),
    ensures
        forall|j: int| 0 <= j < k ==> o1[j] == o2[j],
    decreases k,
{
    if k > 0 {
        lemma_ranking_prefix(ps, o1, o2, k - 1);
        let a = o1[k - 1];
        let b = o2[k - 1];
        if a != b {
            assert(0 <= b < ps.len());
            assert(o1.contains(b));
            let p = choose|p: int| 0 <= p < o1.len() && o1[p] == b;
            if p < k - 1 {
                assert(o2[p] == b);
            }
            assert(ranks_before(ps[a], a, ps[b], b));
            assert(0 <= a < ps.len());
            assert(o2.contains(a));
            let q = choose|q: int| 0 <= q < o2.len() && o2[q] == a;
            if q < k - 1 {
                assert(o1[q] == a);
            }
            assert(ranks_before(ps[b], b, ps[a], a));
        }
    }
}

/// A roster has only one ranking.
pub proof fn lemma_ranking_unique(ps: Seq<PlayerView>, o1: Seq<int>, o2: Seq<int>)
    requires
        is_ranking(ps, o1),
        is_ranking(ps, o2),
    ensures
        o1 == o2,
{
    lemma_ranking_prefix(ps, o1, o2, o1.len() as int);
    assert(o1 =~= o2);
}

/// `o` lists positions of `ps`, each ranked ahead of the ones after it.
pub open spec fn ordered(ps: Seq<PlayerView>, o: Seq<int>) -> bool {
    &&& forall|k: int| 0 <= k < o.len() ==> 0 <= #[trigger] o[k] < ps.len()
    &&& forall|k1: int, k2: int|
        0 <= k1 < k2 < o.len() ==> ranks_before(ps[o[k1]], #[trigger] o[k1], ps[o[k2]], #[trigger] o[k2])
}

proof fn insert_ranked(ps: Seq<PlayerView>, o: Seq<int>, x: int) -> (r: Seq<int>)
    requires
        ordered(ps, o),
        0 <= x < ps.len(),
        !o.contains(x),
    ensures
        ordered(ps, r),
        r.len() == o.len() + 1,
        forall|y: int| r.contains(y) <==> (o.contains(y) || y == x),
    decreases o.len(),
{
    if o.len() == 0 {
        let r = seq![x];
        assert forall|y: int| r.contains(y) <==> (o.contains(y) || y == x) by {
            if r.contains(y) {
                let k = choose|k: int| 0 <= k < r.len() && r[k] == y;
            }
            if y == x {
                assert(r[0] == y);
            }
        }
        r
    } else {
        let last = o.last();
        assert(o[o.len() - 1] == last);
        if ranks_before(ps[last], last, ps[x], x) {
            let r = o.push(x);
            assert forall|k1: int, k2: int| 0 <= k1 < k2 < r.len() implies ranks_before(
                ps[r[k1]],
                #[trigger] r[k1],
                ps[r[k2]],
                #[trigger] r[k2],
            ) by {
                if k2 == o.len() && k1 < o.len() - 1 {
                    assert(ranks_before(ps[o[k1]], o[k1], ps[last], last));
                }
            }
            assert forall|y: int| r.contains(y) <==> (o.contains(y) || y == x) by {
                if r.contains(y) {
                    let k = choose|k: int| 0 <= k < r.len() && r[k] == y;
                    if k < o.len() {
                        assert(o[k] == y);
                    }
                }
                if o.contains(y) {
                    let k = choose|k: int| 0 <= k < o.len() && o[k] == y;
                    assert(r[k] == y);
                }
                if y == x {
                    assert(r[o.len() as int] == y);
                }
            }
            r
        } else {
            let rest = o.drop_last();
            assert forall|k1: int, k2: int| 0 <= k1 < k2 < rest.len() implies ranks_before(
                ps[rest[k1]],
                #[trigger] rest[k1],
                ps[rest[k2]],
                #[trigger] rest[k2],
            ) by {
                assert(rest[k1] == o[k1] && rest[k2] == o[k2]);
            }
            assert(!rest.contains(x)) by {
                if rest.contains(x) {
                    let k = choose|k: int| 0 <= k < rest.len() && rest[k] == x;
                    assert(o[k] == x);
                }
            }
            let m = insert_ranked(ps, rest, x);
            let r = m.push(last);
            assert(x != last) by {
                assert(o.contains(last));
            }
            assert forall|k1: int, k2: int| 0 <= k1 < k2 < r.len() implies ranks_before(
                ps[r[k1]],
                #[trigger] r[k1],
                ps[r[k2]],
                #[trigger] r[k2],
            ) by {
                if k2 == m.len() {
                    assert(m.contains(m[k1]));
                    if m[k1] != x {
                        assert(rest.contains(m[k1]));
                        let j = choose|j: int| 0 <= j < rest.len() && rest[j] == m[k1];
                        assert(o[j] == m[k1]);
                        assert(ranks_before(ps[o[j]], o[j], ps[o[o.len() - 1]], o[o.len() - 1]));
                    }
                }
            }
            assert forall|y: int| r.contains(y) <==> (o.contains(y) || y == x) by {
                if r.contains(y) {
                    let k = choose|k: int| 0 <= k < r.len() && r[k] == y;
                    if k < m.len() {
                        assert(m.contains(y));
                        if rest.contains(y) {
                            let j = choose|j: int| 0 <= j < rest.len() && rest[j] == y;
                            assert(o[j] == y);
                        }
                    }
                }
                if o.contains(y) {
                    let k = choose|k: int| 0 <= k < o.len() && o[k] == y;
                    if k < o.len() - 1 {
                        assert(rest[k] == y);
                        assert(rest.contains(y));
                        assert(m.contains(y));
                        let j = choose|j: int| 0 <= j < m.len() && m[j] == y;
                        assert(r[j] == y);
                    } else {
                        assert(r[m.len() as int] == y);
                    }
                }
                if y == x {
                    assert(m.contains(x));
                    let j = choose|j: int| 0 <= j < m.len() && m[j] == x;
                    assert(r[j] == y);
                }
            }
            r
        }
    }
}

proof fn ranked_positions(ps: Seq<PlayerView>, n: int) -> (o: Seq<int>)
    requires
        0 <= n <= ps.len(),
    ensures
        ordered(ps, o),
        o.len() == n,
        forall|y: int| o.contains(y) <==> 0 <= y < n,
    decreases n,
{
    if n == 0 {
        seq![]
    } else {
        let prev = ranked_positions(ps, n - 1);
        insert_ranked(ps, prev, n - 1)
    }
}

/// Every roster has a ranking.
pub proof fn lemma_ranking_exists(ps: Seq<PlayerView>)
    ensures
        is_ranking(ps, ranking(ps)),
{
    let o = ranked_positions(ps, ps.len() as int);
    assert forall|k1: int, k2: int| 0 <= k1 < k2 < o.len() implies o[k1] != o[k2] by {
        assert(ranks_before(ps[o[k1]], o[k1], ps[o[k2]], o[k2]));
    }
    assert forall|i: int| 0 <= i < ps.len() implies #[trigger] o.contains(i) by {}
    assert(is_ranking(ps, o));
}

// ---------------------------------------------------------------------------
// The engine
// ---------------------------------------------------------------------------

/// The running event: its state, the catalog, who is connected, and the
/// addresses players can join at.
#[derive(Debug)]
pub struct Engine {
    pub state: GameState,
    pub catalog: Catalog,
    pub connected_players: ConnectionCounts,
    pub host_connections: usize,
    pub join_urls: Vec<String>,
}

pub struct EngineView {
    pub state: GameStateView,
    pub catalog: CatalogView,
    pub connected_players: Seq<(Seq<char>, usize)>,
    pub host_connections: usize,
    pub join_urls: Seq<Seq<char>>,
}

impl View for Engine {
    type V = EngineView;

    open spec fn view(&self) -> EngineView {
        EngineView {
            state: self.state@,
            catalog: self.catalog@,
            connected_players: self.connected_players@,
            host_connections: self.host_connections,
            join_urls: self.join_urls.deep_view(),
        }
    }
}

impl EngineView {
    /// This engine with its state replaced.
    pub open spec fn with_state(self, st: GameStateView) -> EngineView {
        EngineView { state: st, ..self }
    }
}

/// The view of a `Result<(), String>`.
pub open spec fn unit_result(r: Result<(), String>) -> Result<(), Seq<char>> {
    match r {
        Ok(()) => Ok(()),
        Err(e) => Err(e@),
    }
}

/// The view of a `Result<bool, String>`.
pub open spec fn bool_result(r: Result<bool, String>) -> Result<bool, Seq<char>> {
    match r {
        Ok(b) => Ok(b),
        Err(e) => Err(e@),
    }
}

/// The view of a `Result<String, String>`.
pub open spec fn text_result(r: Result<String, String>) -> Result<Seq<char>, Seq<char>> {
    match r {
        Ok(s) => Ok(s@),
        Err(e) => Err(e@),
    }
}

/// Every player's score and progress cleared for a new game.
pub open spec fn reset_players(ps: Seq<PlayerView>) -> Seq<PlayerView> {
    Seq::new(
        ps.len(),
        |i: int|
            PlayerView {
                score: 0,
                correct_count: 0,
                correct_response_ms: 0,
                previous_rank: None,
                eligible_from_question: 0,
                ..ps[i]
            },
    )
}

/// Choosing game `game_id` for the lobby.
pub open spec fn select_game_spec(e: EngineView, game_id: Seq<char>) -> (EngineView, Result<(), Seq<char>>) {
    if !e.state.phase.between_games() {
        (e, Err("Finish the current game before selecting another."@))
    } else if game_index(e.catalog.games, game_id) is None {
        (e, Err("That game is not available."@))
    } else {
        (
            e.with_state(
                bump_state(
                    GameStateView {
                        active_game: None,
                        submissions: Seq::empty(),
                        players: reset_players(e.state.players),
                        phase: PhaseView::Lobby { game_id },
                        ..e.state
                    },
                ),
            ),
            Ok(()),
        )
    }
}

/// The game the lobby waits on, as the catalog has it now.
pub open spec fn lobby_game(e: EngineView) -> Option<GameView> {
    match e.state.phase {
        PhaseView::Lobby { game_id } => match game_index(e.catalog.games, game_id) {
            Some(i) => Some(e.catalog.games[i]),
            None => None,
        },
        _ => None,
    }
}

/// Starting the lobby's game cannot panic: when players have joined, it has
/// a first question whose reading deadline fits.
pub open spec fn start_fits(e: EngineView, now_ms: i64) -> bool {
    e.state.players.len() > 0 ==> match lobby_game(e) {
        Some(g) => g.questions.len() > 0 && deadline_fits(
            now_ms,
            g.questions[0].reading_time_seconds(),
        ),
        None => true,
    }
}

/// Starting the game in the lobby at `now_ms`.
pub open spec fn start_game_spec(e: EngineView, now_ms: i64) -> (EngineView, Result<(), Seq<char>>) {
    if !(e.state.phase is Lobby) {
        (e, Err("A game can only start from the lobby."@))
    } else if e.state.players.len() == 0 {
        (e, Err("At least one player must join before starting."@))
    } else {
        match lobby_game(e) {
            None => (e, Err("The selected game is no longer available."@)),
            Some(g) => (
                e.with_state(
                    bump_state(
                        GameStateView {
                            active_game: Some(g),
                            phase: PhaseView::Reading {
                                question_index: 0,
                                deadline_ms: (now_ms + seconds_ms(
                                    g.questions[0].reading_time_seconds(),
                                )) as i64,
                            },
                            ..e.state
                        },
                    ),
                ),
                Ok(()),
            ),
        }
    }
}

/// The host moving the phase on at `now_ms` cannot panic.
pub open spec fn advance_fits(st: GameStateView, now_ms: i64) -> bool {
    &&& (st.phase matches PhaseView::Leaderboard { question_index } ==> question_index < usize::MAX)
    &&& match st.active_game {
        None => true,
        Some(g) => match st.phase {
            PhaseView::Reading { question_index, .. } => deadline_fits(
                now_ms,
                g.questions[question_index as int].time_limit_seconds(),
            ),
            PhaseView::Answering { question_index, .. } => scoring_fits(st, question_index),
            PhaseView::Leaderboard { question_index } => deadline_fits(
                now_ms,
                g.questions[question_index + 1].reading_time_seconds(),
            ),
            _ => true,
        },
    }
}

/// The host moving the phase on at `now_ms`.
pub open spec fn advance_host_spec(st: GameStateView, now_ms: i64) -> (GameStateView, Result<(), Seq<char>>) {
    match st.phase {
        PhaseView::Reading { question_index, .. } => match st.active_game {
            None => (st, Err(restore_error())),
            Some(g) => (
                bump_state(
                    GameStateView {
                        phase: PhaseView::Answering {
                            question_index,
                            started_at_ms: now_ms,
                            deadline_ms: (now_ms + seconds_ms(
                                g.questions[question_index as int].time_limit_seconds(),
                            )) as i64,
                        },
                        ..st
                    },
                ),
                Ok(()),
            ),
        },
        PhaseView::Answering { question_index, .. } => match finished(st, question_index) {
            Err(e) => (st, Err(e)),
            Ok(s) => (
                bump_state(GameStateView { phase: PhaseView::Reveal { question_index }, ..s }),
                Ok(()),
            ),
        },
        PhaseView::Reveal { question_index } => match st.active_game {
            None => (st, Err(restore_error())),
            Some(g) => (
                bump_state(
                    GameStateView {
                        phase: if g.questions.len() == question_index + 1 {
                            PhaseView::FinalLeaderboard
                        } else {
                            PhaseView::Leaderboard { question_index }
                        },
                        ..st
                    },
                ),
                Ok(()),
            ),
        },
        PhaseView::Leaderboard { question_index } => {
            let ranked = GameStateView { players: committed(st.players), ..st };
            match st.active_game {
                None => (ranked, Err(restore_error())),
                Some(g) => (
                    bump_state(
                        GameStateView {
                            phase: PhaseView::Reading {
                                question_index: (question_index + 1) as usize,
                                deadline_ms: (now_ms + seconds_ms(
                                    g.questions[question_index + 1].reading_time_seconds(),
                                )) as i64,
                            },
                            ..ranked
                        },
                    ),
                    Ok(()),
                ),
            }
        },
        _ => (st, Err("There is nothing for the host to advance right now."@)),
    }
}

/// One clock transition at `now_ms`, if a deadline has passed.
pub open spec fn tick_step(st: GameStateView, now_ms: i64) -> Option<Result<GameStateView, Seq<char>>> {
    match st.phase {
        PhaseView::Reading { question_index, deadline_ms } => if now_ms >= deadline_ms {
            Some(
                match st.active_game {
                    None => Err(restore_error()),
                    Some(g) => Ok(
                        bump_state(
                            GameStateView {
                                phase: PhaseView::Answering {
                                    question_index,
                                    started_at_ms: deadline_ms,
                                    deadline_ms: (deadline_ms + seconds_ms(
                                        g.questions[question_index as int].time_limit_seconds(),
                                    )) as i64,
                                },
                                ..st
                            },
                        ),
                    ),
                },
            )
        } else {
            None
        },
        PhaseView::Answering { question_index, deadline_ms, .. } => if now_ms >= deadline_ms {
            Some(
                match finished(st, question_index) {
                    Err(e) => Err(e),
                    Ok(s) => Ok(
                        bump_state(GameStateView { phase: PhaseView::Reveal { question_index }, ..s }),
                    ),
                },
            )
        } else {
            None
        },
        _ => None,
    }
}

/// A clock transition at `now_ms` cannot panic.
pub open spec fn tick_step_fits(st: GameStateView, now_ms: i64) -> bool {
    match st.active_game {
        None => true,
        Some(g) => match st.phase {
            PhaseView::Reading { question_index, deadline_ms } => now_ms >= deadline_ms
                ==> deadline_fits(
                deadline_ms,
                g.questions[question_index as int].time_limit_seconds(),
            ),
            PhaseView::Answering { question_index, deadline_ms, .. } => now_ms >= deadline_ms
                ==> scoring_fits(st, question_index),
            _ => true,
        },
    }
}

/// The clock's transitions at `now_ms` cannot panic.
pub open spec fn tick_fits(st: GameStateView, now_ms: i64) -> bool {
    &&& tick_step_fits(st, now_ms)
    &&& (tick_step(st, now_ms) matches Some(Ok(s1)) ==> tick_step_fits(s1, now_ms))
}

/// Every transition whose deadline has passed by `now_ms`, in turn; whether any happened.
pub open spec fn tick_spec(st: GameStateView, now_ms: i64) -> (GameStateView, Result<bool, Seq<char>>) {
    match tick_step(st, now_ms) {
        None => (st, Ok(false)),
        Some(Err(e)) => (st, Err(e)),
        Some(Ok(s1)) => match tick_step(s1, now_ms) {
            None => (s1, Ok(true)),
            Some(Err(e)) => (s1, Err(e)),
            Some(Ok(s2)) => (s2, Ok(true)),
        },
    }
}

/// How many of the first `n` players may answer question `qi`.
pub open spec fn eligible_count(ps: Seq<PlayerView>, qi: usize, n: nat) -> nat
    decreases n,
{
    if n == 0 {
        0
    } else {
        eligible_count(ps, qi, (n - 1) as nat) + (if ps[n - 1].eligible_from_question <= qi {
            1nat
        } else {
            0nat
        })
    }
}

/// How many of the first `n` submissions answer question `qi`.
pub open spec fn submitted_count(subs: Seq<SubmissionView>, qi: usize, n: nat) -> nat
    decreases n,
{
    if n == 0 {
        0
    } else {
        submitted_count(subs, qi, (n - 1) as nat) + (if subs[n - 1].question_index == qi {
            1nat
        } else {
            0nat
        })
    }
}

/// Some player may answer question `qi`, and there are at least as many
/// answers to it as such players.
pub open spec fn all_answered(st: GameStateView, qi: usize) -> bool {
    let eligible = eligible_count(st.players, qi, st.players.len());
    eligible > 0 && submitted_count(st.submissions, qi, st.submissions.len()) >= eligible
}

/// Some option has identifier `id`.
pub open spec fn has_option_id(options: Seq<ChoiceView>, id: Seq<char>) -> bool {
    exists|k: int| 0 <= k < options.len() && options[k].id == id
}

/// Whether `answer` has the form `question` asks for, or the error telling why not.
pub open spec fn answer_form_error(question: QuestionView, answer: AnswerView) -> Option<Seq<char>> {
    match (answer, question) {
        (AnswerView::MultipleChoice { option_id }, QuestionView::MultipleChoice { options, .. }) =>
            if has_option_id(options, option_id) {
            None
        } else {
            Some("That answer is not valid for this question."@)
        },
        (AnswerView::FreeText { text }, QuestionView::FreeText { .. }) => if !is_blank(text)
            && text.len() <= 120 {
            None
        } else {
            Some("Enter an answer up to 120 characters."@)
        },
        _ => Some("That answer is not valid for this question."@),
    }
}

/// Player `player_id` answering at `now_ms`.
pub open spec fn submit_spec(
    st: GameStateView,
    player_id: Seq<char>,
    answer: AnswerView,
    now_ms: i64,
) -> (GameStateView, Result<(), Seq<char>>) {
    match st.phase {
        PhaseView::Answering { question_index, started_at_ms, deadline_ms } => {
            if now_ms >= deadline_ms {
                (st, Err("Time is up for this question."@))
            } else {
                match index_of(st.players, player_id) {
                    None => (st, Err("Player session was not found."@)),
                    Some(pi) => if st.players[pi].eligible_from_question > question_index {
                        (st, Err("You can start answering on the next question."@))
                    } else if exists|k: int|
                        0 <= k < st.submissions.len() && st.submissions[k].player_id == player_id
                            && st.submissions[k].question_index == question_index {
                        (st, Err("Your first answer is already locked in."@))
                    } else {
                        match st.active_game {
                            None => (st, Err(restore_error())),
                            Some(g) => match answer_form_error(
                                g.questions[question_index as int],
                                answer,
                            ) {
                                Some(e) => (st, Err(e)),
                                None => {
                                    let pushed = GameStateView {
                                        submissions: st.submissions.push(
                                            SubmissionView {
                                                player_id,
                                                question_index,
                                                answer,
                                                response_ms: elapsed_ms(now_ms, started_at_ms),
                                                correct: None,
                                                points: None,
                                            },
                                        ),
                                        ..st
                                    };
                                    if all_answered(pushed, question_index) {
                                        match finished(pushed, question_index) {
                                            Ok(s) => (
                                                bump_state(
                                                    GameStateView {
                                                        phase: PhaseView::Reveal { question_index },
                                                        ..s
                                                    },
                                                ),
                                                Ok(()),
                                            ),
                                            Err(e) => (pushed, Err(e)),
                                        }
                                    } else {
                                        (bump_state(pushed), Ok(()))
                                    }
                                },
                            },
                        }
                    }
                }
            }
        },
        _ => (st, Err("Answers are not open."@)),
    }
}

/// The submission `player_id` would add at `now_ms` in the answering phase.
pub open spec fn submission_at(st: GameStateView, player_id: Seq<char>, answer: AnswerView, now_ms: i64) -> SubmissionView {
    SubmissionView {
        player_id,
        question_index: current_question_index(st)->0,
        answer,
        response_ms: match st.phase {
            PhaseView::Answering { started_at_ms, .. } => elapsed_ms(now_ms, started_at_ms),
            _ => 0,
        },
        correct: None,
        points: None,
    }
}

/// The answer is accepted: answers are open and not yet timed out, the
/// player exists, may answer this question and has not answered it yet, and
/// the answer has the question's form.
pub open spec fn submit_accepts(st: GameStateView, player_id: Seq<char>, answer: AnswerView, now_ms: i64) -> bool {
    match st.phase {
        PhaseView::Answering { question_index, deadline_ms, .. } => {
            &&& now_ms < deadline_ms
            &&& index_of(st.players, player_id) matches Some(pi)
                && st.players[pi].eligible_from_question <= question_index
            &&& !(exists|k: int|
                0 <= k < st.submissions.len() && st.submissions[k].player_id == player_id
                    && st.submissions[k].question_index == question_index)
            &&& st.active_game matches Some(g) && answer_form_error(
                g.questions[question_index as int],
                answer,
            ) is None
        },
        _ => false,
    }
}

/// Submitting cannot panic: if the answer is accepted and completes the
/// question, scoring it fits.
pub open spec fn submit_fits(st: GameStateView, player_id: Seq<char>, answer: AnswerView, now_ms: i64) -> bool {
    match st.phase {
        PhaseView::Answering { question_index, .. } => {
            let pushed = GameStateView {
                submissions: st.submissions.push(submission_at(st, player_id, answer, now_ms)),
                ..st
            };
            (submit_accepts(st, player_id, answer, now_ms) && all_answered(pushed, question_index))
                ==> scoring_fits(pushed, question_index)
        },
        _ => true,
    }
}

/// The first player (in identifier order) whose token hash is `token_hash`.
pub open spec fn token_index(ps: Seq<PlayerView>, token_hash: Seq<char>) -> Option<int>
    decreases ps.len(),
{
    if ps.len() == 0 {
        None
    } else {
        match token_index(ps.drop_last(), token_hash) {
            Some(i) => Some(i),
            None => if ps.last().token_hash == token_hash {
                Some(ps.len() - 1)
            } else {
                None
            },
        }
    }
}

/// Choosing `url` as the join address to show.
pub open spec fn set_advertised_url_spec(e: EngineView, url: Seq<char>) -> (EngineView, Result<(), Seq<char>>) {
    if !e.join_urls.contains(url) {
        (e, Err("Choose one of the detected join URLs."@))
    } else {
        (e.with_state(bump_state(GameStateView { advertised_url: Some(url), ..e.state })), Ok(()))
    }
}

/// Replacing the catalog by `loaded` (the catalog read again, or why it
/// could not be): only between games; a lobby whose game is gone returns to
/// selection.
pub open spec fn reload_catalog_spec(e: EngineView, loaded: Result<CatalogView, Seq<char>>) -> (EngineView, Result<(), Seq<char>>) {
    if !e.state.phase.between_games() {
        (e, Err("Content can only be reloaded between games."@))
    } else {
        match loaded {
            Err(msg) => (e, Err(msg)),
            Ok(catalog) => {
                let phase = match e.state.phase {
                    PhaseView::Lobby { game_id } => if game_index(catalog.games, game_id) is None {
                        PhaseView::Selection
                    } else {
                        e.state.phase
                    },
                    _ => e.state.phase,
                };
                (
                    EngineView {
                        catalog,
                        state: bump_state(GameStateView { phase, ..e.state }),
                        ..e
                    },
                    Ok(()),
                )
            },
        }
    }
}

/// A player name: `username` trimmed, 1 to 24 characters, no control character.
pub open spec fn username_error(username: Seq<char>) -> bool {
    let name = trim(username);
    !(1 <= name.len() <= 24) || exists|k: int| 0 <= k < name.len() && is_control_char(name[k])
}

/// Player `username` joining with session `token_hash` under identifier `id`.
pub open spec fn join_spec(
    e: EngineView,
    username: Seq<char>,
    token_hash: Seq<char>,
    id: Seq<char>,
) -> (EngineView, Result<Seq<char>, Seq<char>>) {
    let name = trim(username);
    if username_error(username) {
        (e, Err("Use a username between 1 and 24 characters."@))
    } else if exists|i: int|
        0 <= i < e.state.players.len() && str_lowercase(e.state.players[i].username)
            == str_lowercase(name) {
        (e, Err("That username is already in use on this Hoot."@))
    } else {
        (
            e.with_state(
                bump_state(
                    GameStateView {
                        next_join_order: (e.state.next_join_order + 1) as u64,
                        players: stored(e.state.players, newcomer(e, username, token_hash, id)),
                        ..e.state
                    },
                ),
            ),
            Ok(id),
        )
    }
}

/// The player a successful join adds: the trimmed name, no points, the next
/// join order, and allowed to answer from the question after the current one
/// (from the first when no question is under way).
pub open spec fn newcomer(e: EngineView, username: Seq<char>, token_hash: Seq<char>, id: Seq<char>) -> PlayerView {
    PlayerView {
        id,
        username: trim(username),
        token_hash,
        score: 0,
        correct_count: 0,
        correct_response_ms: 0,
        joined_order: e.state.next_join_order,
        eligible_from_question: match current_question_index(e.state) {
            Some(i) => (i + 1) as usize,
            None => 0,
        },
        previous_rank: None,
    }
}

/// Joining cannot panic or outgrow the roster's bounds.
pub open spec fn join_fits(e: EngineView) -> bool {
    &&& e.state.next_join_order < u64::MAX
    &&& e.state.players.len() < i64::MAX
    &&& (current_question_index(e.state) matches Some(i) ==> i < usize::MAX)
}

fn text(s: &str) -> (r: String)
    ensures
        r@ == s@,
{
    owned(s)
}

impl Engine {
    /// An engine over `state` and `catalog`, offering `join_urls`, with no
    /// connection open.
    pub fn new(state: GameState, catalog: Catalog, join_urls: Vec<String>) -> (r: Engine)
        ensures
            r@.state == state@,
            r@.catalog == catalog@,
            r@.join_urls == join_urls.deep_view(),
            r@.host_connections == 0,
            r@.connected_players.len() == 0,
    {
        Engine {
            state,
            catalog,
            connected_players: ConnectionCounts::new(),
            host_connections: 0,
            join_urls,
        }
    }

    /// Marks the state as changed.
    pub fn bump(&mut self)
        ensures
            final(self)@ == old(self)@.with_state(bump_state(old(self)@.state)),
    {
        if self.state.revision < u64::MAX {
            self.state.revision = self.state.revision + 1;
        }
    }

    /// The player (first in identifier order) holding session `token_hash`.
    pub fn player_by_token_hash(&self, token_hash: &str) -> (r: Option<&Player>)
        ensures
            r matches Some(p) ==> token_index(self@.state.players, token_hash@) matches Some(i)
                && p@ == self@.state.players[i],
            r is None ==> token_index(self@.state.players, token_hash@) is None,
    {
        let ghost ps = self.state.players@;
        let mut i: usize = 0;
        while i < self.state.players.len()
            invariant
                i <= ps.len(),
                ps == self.state.players@,
                token_index(ps.take(i as int), token_hash@) is None,
            decreases ps.len() - i,
        {
            assert(ps.take(i + 1).drop_last() =~= ps.take(i as int));
            let p = self.state.players.at(i);
            if same_text(p.token_hash.as_str(), token_hash) {
                proof {
                    lemma_token_index_prefix(ps, (i + 1) as int, token_hash@);
                }
                return Some(p);
            }
            i = i + 1;
        }
        assert(ps.take(ps.len() as int) =~= ps);
        None
    }

    /// The question the current phase is about.
    pub fn current_question_index(&self) -> (r: Option<usize>)
        ensures
            r == current_question_index(self@.state),
    {
        match &self.state.phase {
            Phase::Reading { question_index, .. } => Some(*question_index),
            Phase::Answering { question_index, .. } => Some(*question_index),
            Phase::Reveal { question_index } => Some(*question_index),
            Phase::Leaderboard { question_index } => Some(*question_index),
            Phase::FinalLeaderboard => match &self.state.active_game {
                Some(g) => if g.questions.len() > 0 {
                    Some(g.questions.len() - 1)
                } else {
                    None
                },
                None => None,
            },
            _ => None,
        }
    }

    /// The question the current phase is about, from the active game.
    pub fn current_question(&self) -> (r: Option<&Question>)
        ensures
            r matches Some(q) ==> self@.state.active_game matches Some(g) && current_question_index(
                self@.state,
            ) matches Some(i) && i < g.questions.len() && q@ == g.questions[i as int],
            r is None ==> !(self@.state.active_game matches Some(g) && current_question_index(
                self@.state,
            ) matches Some(i) && i < g.questions.len()),
    {
        match &self.state.active_game {
            None => None,
            Some(g) => match self.current_question_index() {
                None => None,
                Some(i) => if i < g.questions.len() {
                    Some(&g.questions[i])
                } else {
                    None
                },
            },
        }
    }

    fn active_game(&self) -> (r: Result<&Game, String>)
        ensures
            r matches Ok(g) ==> self@.state.active_game == Some(g@),
            r matches Err(e) ==> self@.state.active_game is None && e@ == restore_error(),
    {
        match &self.state.active_game {
            Some(g) => Ok(g),
            None => Err(text("The active game could not be restored.")),
        }
    }

    /// Chooses the game for the lobby, clearing the previous game's results.
    pub fn select_game(&mut self, game_id: &str) -> (r: Result<(), String>)
        requires
            well_formed(old(self)@.state),
        ensures
            final(self)@ == select_game_spec(old(self)@, game_id@).0,
            unit_result(r) == select_game_spec(old(self)@, game_id@).1,
            well_formed(final(self)@.state),
    {
        if !self.state.phase.is_between_games() {
            return Err(text("Finish the current game before selecting another."));
        }
        if self.catalog.game(game_id).is_none() {
            return Err(text("That game is not available."));
        }
        self.state.active_game = None;
        self.state.submissions = Vec::new();
        reset_scores(&mut self.state.players);
        self.state.phase = Phase::Lobby { game_id: text(game_id) };
        self.bump();
        assert(self.state.submissions.deep_view() =~= Seq::<SubmissionView>::empty());
        Ok(())
    }

    /// Chooses which detected address is shown for joining.
    pub fn set_advertised_url(&mut self, url: String) -> (r: Result<(), String>)
        ensures
            final(self)@ == set_advertised_url_spec(old(self)@, url@).0,
            unit_result(r) == set_advertised_url_spec(old(self)@, url@).1,
    {
        let ghost urls = self.join_urls.deep_view();
        let mut found = false;
        let mut i: usize = 0;
        while i < self.join_urls.len() && !found
            invariant
                i <= urls.len(),
                urls == self.join_urls.deep_view(),
                found == (exists|k: int| 0 <= k < i && urls[k] == url@),
            decreases urls.len() - i,
        {
            assert(urls[i as int] == self.join_urls@[i as int]@);
            if same_text(self.join_urls[i].as_str(), url.as_str()) {
                found = true;
            }
            i = i + 1;
        }
        if !found {
            assert(!urls.contains(url@));
            return Err(text("Choose one of the detected join URLs."));
        }
        self.state.advertised_url = Some(url);
        self.bump();
        Ok(())
    }

    /// Replaces the catalog by one read again, between games only.
    pub fn reload_catalog(&mut self, loaded: Result<Catalog, String>) -> (r: Result<(), String>)
        requires
            well_formed(old(self)@.state),
        ensures
            final(self)@ == reload_catalog_spec(
                old(self)@,
                crate::content::catalog_result_view(loaded),
            ).0,
            unit_result(r) == reload_catalog_spec(
                old(self)@,
                crate::content::catalog_result_view(loaded),
            ).1,
            well_formed(final(self)@.state),
    {
        if !self.state.phase.is_between_games() {
            return Err(text("Content can only be reloaded between games."));
        }
        let catalog = match loaded {
            Err(e) => {
                return Err(e);
            },
            Ok(c) => c,
        };
        let mut back_to_selection = false;
        match &self.state.phase {
            Phase::Lobby { game_id } => {
                if catalog.game(game_id.as_str()).is_none() {
                    back_to_selection = true;
                }
            },
            _ => {},
        }
        if back_to_selection {
            self.state.phase = Phase::Selection;
        }
        self.catalog = catalog;
        self.bump();
        Ok(())
    }

    /// Starts the lobby's game: its first question is read until `now_ms`
    /// plus the question's reading time.
    pub fn start_game(&mut self, now_ms: i64) -> (r: Result<(), String>)
        requires
            well_formed(old(self)@.state),
            start_fits(old(self)@, now_ms),
        ensures
            final(self)@ == start_game_spec(old(self)@, now_ms).0,
            unit_result(r) == start_game_spec(old(self)@, now_ms).1,
            well_formed(final(self)@.state),
    {
        let game = match &self.state.phase {
            Phase::Lobby { game_id } => {
                if self.state.players.is_empty() {
                    return Err(text("At least one player must join before starting."));
                }
                match self.catalog.game(game_id.as_str()) {
                    None => {
                        return Err(text("The selected game is no longer available."));
                    },
                    Some(g) => g.duplicate(),
                }
            },
            _ => {
                return Err(text("A game can only start from the lobby."));
            },
        };
        let deadline_ms = deadline_after(now_ms, game.questions[0].reading_time_seconds());
        self.state.active_game = Some(game);
        self.state.phase = Phase::Reading { question_index: 0, deadline_ms };
        self.bump();
        Ok(())
    }
}

fn reset_scores(players: &mut PlayerMap)
    ensures
        final(players)@ == reset_players(old(players)@),
{
    let ghost ps = old(players)@;
    let mut i: usize = 0;
    while i < players.len()
        invariant
            i <= ps.len(),
            players@.len() == ps.len(),
            forall|k: int| 0 <= k < i ==> players@[k] == reset_players(ps)[k],
            forall|k: int| i <= k < ps.len() ==> players@[k] == ps[k],
        decreases ps.len() - i,
    {
        let mut p = players.at(i).duplicate();
        p.score = 0;
        p.correct_count = 0;
        p.correct_response_ms = 0;
        p.previous_rank = None;
        p.eligible_from_question = 0;
        players.set(i, p);
        i = i + 1;
    }
    assert(players@ =~= reset_players(ps));
}

pub(crate) proof fn lemma_scored_shape(
    ps: Seq<PlayerView>,
    subs: Seq<SubmissionView>,
    qi: usize,
    q: QuestionView,
    limit_ms: nat,
    n: nat,
)
    requires
        n <= subs.len(),
    ensures
        scored_through(ps, subs, qi, q, limit_ms, n).0.len() == ps.len(),
        forall|i: int|
            0 <= i < ps.len() ==> (#[trigger] scored_through(ps, subs, qi, q, limit_ms, n).0[i]).id
                == ps[i].id && scored_through(ps, subs, qi, q, limit_ms, n).0[i].previous_rank
                == ps[i].previous_rank,
        scored_through(ps, subs, qi, q, limit_ms, n).1.len() == subs.len(),
        forall|j: int|
            n <= j < subs.len() ==> #[trigger] scored_through(ps, subs, qi, q, limit_ms, n).1[j]
                == subs[j],
    decreases n,
{
    if n > 0 {
        lemma_scored_shape(ps, subs, qi, q, limit_ms, (n - 1) as nat);
    }
}

/// Judges and credits every answer to question `qi`, in submission order.
fn score_answers(
    players: &mut PlayerMap,
    subs: &mut Vec<Submission>,
    qi: usize,
    question: &Question,
    limit_ms: u64,
)
    requires
        credits_fit(old(players)@, old(subs).deep_view(), qi, question@, limit_ms as nat, old(subs)@.len()),
    ensures
        (final(players)@, final(subs).deep_view()) == scored_through(
            old(players)@,
            old(subs).deep_view(),
            qi,
            question@,
            limit_ms as nat,
            old(subs)@.len(),
        ),
{
    let ghost ps0 = old(players)@;
    let ghost subs0 = old(subs).deep_view();
    let n = subs.len();
    let double = question.double_points();
    let mut k: usize = 0;
    proof {
        lemma_scored_shape(ps0, subs0, qi, question@, limit_ms as nat, 0);
    }
    while k < n
        invariant
            k <= n,
            n == subs0.len(),
            double == question@.double_points(),
            credits_fit(ps0, subs0, qi, question@, limit_ms as nat, n as nat),
            subs@.len() == n,
            (players@, subs.deep_view()) == scored_through(ps0, subs0, qi, question@, limit_ms as nat, k as nat),
            forall|j: int| k <= j < n ==> #[trigger] subs.deep_view()[j] == subs0[j],
        decreases n - k,
    {
        proof {
            lemma_scored_shape(ps0, subs0, qi, question@, limit_ms as nat, (k + 1) as nat);
            lemma_credits_prefix(ps0, subs0, qi, question@, limit_ms as nat, (k + 1) as nat, n as nat);
            assert(subs.deep_view()[k as int] == subs0[k as int]);
        }
        if subs[k].question_index == qi {
            let correct = answer_is_correct(question, &subs[k].answer);
            let response_ms = subs[k].response_ms;
            let points: i64 = if correct {
                let base = speed_points_of(response_ms, limit_ms);
                if double {
                    (base * 2) as i64
                } else {
                    base as i64
                }
            } else {
                0
            };
            assert(points == earned(question@, subs0[k as int], limit_ms as nat));
            let scored = Submission {
                player_id: subs[k].player_id.clone(),
                question_index: qi,
                answer: subs[k].answer.duplicate(),
                response_ms,
                correct: Some(correct),
                points: Some(points),
            };
            let place = players.position(subs[k].player_id.as_str());
            subs.set(k, scored);
            match place {
                Some(i) => {
                    let mut p = players.at(i).duplicate();
                    p.score = p.score + points;
                    if correct {
                        p.correct_count = p.correct_count + 1;
                        p.correct_response_ms = p.correct_response_ms + response_ms;
                    }
                    players.set(i, p);
                },
                None => {},
            }
            proof {
                assert(subs.deep_view() =~= scored_through(ps0, subs0, qi, question@, limit_ms as nat, (k + 1) as nat).1);
            }
        }
        k = k + 1;
    }
}

proof fn lemma_token_index_prefix(ps: Seq<PlayerView>, n: int, token_hash: Seq<char>)
    requires
        0 <= n <= ps.len(),
        token_index(ps.take(n), token_hash) is Some,
    ensures
        token_index(ps, token_hash) == token_index(ps.take(n), token_hash),
    decreases ps.len() - n,
{
    if n < ps.len() {
        assert(ps.take(n + 1).drop_last() =~= ps.take(n));
        lemma_token_index_prefix(ps, n + 1, token_hash);
    } else {
        assert(ps.take(n) =~= ps);
    }
}

impl Engine {
    /// Judges and scores every answer to question `question_index`.
    fn finish_answering(&mut self, question_index: usize) -> (r: Result<(), String>)
        requires
            well_formed(old(self)@.state),
            old(self)@.state.active_game matches Some(g) ==> question_index < g.questions.len(),
            scoring_fits(old(self)@.state, question_index),
        ensures
            finished(old(self)@.state, question_index) matches Ok(s) ==> final(self)@ == old(
                self,
            )@.with_state(s) && r is Ok,
            finished(old(self)@.state, question_index) matches Err(e) ==> final(self)@ == old(
                self,
            )@ && (r matches Err(m) && m@ == e),
            well_formed(final(self)@.state),
    {
        let question = match self.active_game() {
            Err(e) => {
                return Err(e);
            },
            Ok(g) => g.questions[question_index].duplicate(),
        };
        let limit_ms = question.time_limit_seconds() * 1000;
        let ghost st = self.state@;
        score_answers(
            &mut self.state.players,
            &mut self.state.submissions,
            question_index,
            &question,
            limit_ms,
        );
        proof {
            lemma_scored_shape(
                st.players,
                st.submissions,
                question_index,
                question@,
                limit_ms as nat,
                st.submissions.len(),
            );
            assert forall|i: int| 0 <= i < self.state.players@.len() implies match #[trigger] self.state.players@[i].previous_rank {
                Some(r) => r <= self.state.players@.len(),
                None => true,
            } by {
                assert(st.players[i].previous_rank == self.state.players@[i].previous_rank);
            }
        }
        Ok(())
    }

    /// The host moves the phase on: reading to answering (now), answering to
    /// the reveal (scoring the answers), the reveal to the leaderboard or the
    /// final leaderboard, and the leaderboard to reading the next question
    /// (remembering the current ranks).
    pub fn advance_host(&mut self, now_ms: i64) -> (r: Result<(), String>)
        requires
            well_formed(old(self)@.state),
            advance_fits(old(self)@.state, now_ms),
        ensures
            final(self)@ == old(self)@.with_state(advance_host_spec(old(self)@.state, now_ms).0),
            unit_result(r) == advance_host_spec(old(self)@.state, now_ms).1,
            well_formed(final(self)@.state),
    {
        let phase = self.state.phase.duplicate();
        match phase {
            Phase::Reading { question_index, .. } => {
                let limit = match self.active_game() {
                    Err(e) => {
                        return Err(e);
                    },
                    Ok(g) => g.questions[question_index].time_limit_seconds(),
                };
                let deadline_ms = deadline_after(now_ms, limit);
                self.state.phase = Phase::Answering {
                    question_index,
                    started_at_ms: now_ms,
                    deadline_ms,
                };
            },
            Phase::Answering { question_index, .. } => {
                match self.finish_answering(question_index) {
                    Err(e) => {
                        return Err(e);
                    },
                    Ok(()) => {},
                }
                self.state.phase = Phase::Reveal { question_index };
            },
            Phase::Reveal { question_index } => {
                let count = match self.active_game() {
                    Err(e) => {
                        return Err(e);
                    },
                    Ok(g) => g.questions.len(),
                };
                self.state.phase = if count == question_index + 1 {
                    Phase::FinalLeaderboard
                } else {
                    Phase::Leaderboard { question_index }
                };
            },
            Phase::Leaderboard { question_index } => {
                self.commit_current_ranks();
                let next = question_index + 1;
                let reading = match self.active_game() {
                    Err(e) => {
                        return Err(e);
                    },
                    Ok(g) => g.questions[next].reading_time_seconds(),
                };
                let deadline_ms = deadline_after(now_ms, reading);
                self.state.phase = Phase::Reading { question_index: next, deadline_ms };
            },
            _ => {
                return Err(text("There is nothing for the host to advance right now."));
            },
        }
        self.bump();
        Ok(())
    }

    /// One clock transition at `now_ms`, if a deadline has passed.
    fn tick_step(&mut self, now_ms: i64) -> (r: Option<Result<(), String>>)
        requires
            well_formed(old(self)@.state),
            tick_step_fits(old(self)@.state, now_ms),
        ensures
            tick_step(old(self)@.state, now_ms) is None ==> r is None && final(self)@ == old(self)@,
            tick_step(old(self)@.state, now_ms) matches Some(Ok(s)) ==> (r matches Some(Ok(_)))
                && final(self)@ == old(self)@.with_state(s),
            tick_step(old(self)@.state, now_ms) matches Some(Err(e)) ==> (r matches Some(Err(m))
                && m@ == e) && final(self)@ == old(self)@,
            well_formed(final(self)@.state),
    {
        let phase = self.state.phase.duplicate();
        match phase {
            Phase::Reading { question_index, deadline_ms } => {
                if now_ms < deadline_ms {
                    return None;
                }
                let limit = match self.active_game() {
                    Err(e) => {
                        return Some(Err(e));
                    },
                    Ok(g) => g.questions[question_index].time_limit_seconds(),
                };
                let next_deadline = deadline_after(deadline_ms, limit);
                self.state.phase = Phase::Answering {
                    question_index,
                    started_at_ms: deadline_ms,
                    deadline_ms: next_deadline,
                };
                self.bump();
                Some(Ok(()))
            },
            Phase::Answering { question_index, deadline_ms, .. } => {
                if now_ms < deadline_ms {
                    return None;
                }
                match self.finish_answering(question_index) {
                    Err(e) => {
                        return Some(Err(e));
                    },
                    Ok(()) => {},
                }
                self.state.phase = Phase::Reveal { question_index };
                self.bump();
                Some(Ok(()))
            },
            _ => None,
        }
    }

    /// Applies every transition whose deadline has passed by `now_ms`: an
    /// elapsed reading time opens answers (from the reading deadline), and
    /// an elapsed answering time scores the answers and reveals them.
    /// Returns whether anything changed.
    pub fn tick(&mut self, now_ms: i64) -> (r: Result<bool, String>)
        requires
            well_formed(old(self)@.state),
            tick_fits(old(self)@.state, now_ms),
        ensures
            final(self)@ == old(self)@.with_state(tick_spec(old(self)@.state, now_ms).0),
            bool_result(r) == tick_spec(old(self)@.state, now_ms).1,
            well_formed(final(self)@.state),
    {
        match self.tick_step(now_ms) {
            None => Ok(false),
            Some(Err(e)) => Err(e),
            Some(Ok(())) => match self.tick_step(now_ms) {
                None => Ok(true),
                Some(Err(e)) => Err(e),
                Some(Ok(())) => Ok(true),
            },
        }
    }
}

/// One line of the leaderboard.
#[derive(Debug)]
pub struct Ranking {
    pub id: String,
    pub username: String,
    pub score: i64,
    pub rank: usize,
    pub rank_delta: i64,
}

pub struct RankingView {
    pub id: Seq<char>,
    pub username: Seq<char>,
    pub score: i64,
    pub rank: usize,
    pub rank_delta: i64,
}

impl View for Ranking {
    type V = RankingView;

    open spec fn view(&self) -> RankingView {
        RankingView {
            id: self.id@,
            username: self.username@,
            score: self.score,
            rank: self.rank,
            rank_delta: self.rank_delta,
        }
    }
}

impl DeepView for Ranking {
    type V = RankingView;

    open spec fn deep_view(&self) -> RankingView {
        self@
    }
}

/// The leaderboard line of `p` at 1-based rank `rank`: places gained since
/// the previous rank was remembered (0 when none was).
pub open spec fn ranking_line(p: PlayerView, rank: int) -> RankingView {
    RankingView {
        id: p.id,
        username: p.username,
        score: p.score,
        rank: rank as usize,
        rank_delta: match p.previous_rank {
            Some(old) => (old - rank) as i64,
            None => 0,
        },
    }
}

/// The leaderboard of a roster, best first.
pub open spec fn leaderboard(ps: Seq<PlayerView>) -> Seq<RankingView> {
    Seq::new(ps.len(), |k: int| ranking_line(ps[ranking(ps)[k]], k + 1))
}

/// The roster positions in ranking order, as integers.
pub open spec fn positions(o: Seq<usize>) -> Seq<int> {
    o.map_values(|x: usize| x as int)
}

fn ranks_ahead(players: &PlayerMap, a: usize, b: usize) -> (r: bool)
    requires
        a < players@.len(),
        b < players@.len(),
    ensures
        r == ranks_before(players@[a as int], a as int, players@[b as int], b as int),
{
    let x = players.at(a);
    let y = players.at(b);
    if x.score != y.score {
        return x.score > y.score;
    }
    if x.correct_count != y.correct_count {
        return x.correct_count > y.correct_count;
    }
    if x.correct_response_ms != y.correct_response_ms {
        return x.correct_response_ms < y.correct_response_ms;
    }
    if x.joined_order != y.joined_order {
        return x.joined_order < y.joined_order;
    }
    a < b
}

/// The roster positions from best to worst ranked (a stable sort by rank key).
fn ranking_order(players: &PlayerMap) -> (o: Vec<usize>)
    ensures
        is_ranking(players@, positions(o@)),
{
    let ghost ps = players@;
    let n = players.len();
    let mut o: Vec<usize> = Vec::new();
    let mut i: usize = 0;
    while i < n
        invariant
            i <= n,
            n == ps.len(),
            ps == players@,
            o@.len() == i,
            forall|k: int| 0 <= k < o@.len() ==> (#[trigger] o@[k]) < i,
            forall|k1: int, k2: int| 0 <= k1 < k2 < o@.len() ==> o@[k1] != o@[k2],
            forall|x: int| 0 <= x < i ==> #[trigger] positions(o@).contains(x),
            forall|k1: int, k2: int|
                0 <= k1 < k2 < o@.len() ==> ranks_before(
                    ps[o@[k1] as int],
                    #[trigger] o@[k1] as int,
                    ps[o@[k2] as int],
                    #[trigger] o@[k2] as int,
                ),
        decreases n - i,
    {
        let mut p: usize = 0;
        while p < o.len() && !ranks_ahead(players, i, o[p])
            invariant
                i < n,
                n == ps.len(),
                ps == players@,
                o@.len() == i,
                p <= o@.len(),
                forall|k: int| 0 <= k < o@.len() ==> (#[trigger] o@[k]) < i,
                forall|k: int| 0 <= k < p ==> !ranks_before(ps[i as int], i as int, ps[o@[k] as int], #[trigger] o@[k] as int),
            decreases o@.len() - p,
        {
            p = p + 1;
        }
        let ghost old_o = o@;
        o.insert(p, i);
        proof {
            assert forall|k1: int, k2: int| 0 <= k1 < k2 < o@.len() implies ranks_before(
                ps[o@[k1] as int],
                #[trigger] o@[k1] as int,
                ps[o@[k2] as int],
                #[trigger] o@[k2] as int,
            ) by {
                if k2 < p {
                    assert(o@[k1] == old_o[k1] && o@[k2] == old_o[k2]);
                } else if k2 == p {
                    assert(o@[k1] == old_o[k1]);
                    assert(!ranks_before(ps[i as int], i as int, ps[old_o[k1] as int], old_o[k1] as int));
                } else if k1 < p {
                    assert(o@[k1] == old_o[k1] && o@[k2] == old_o[k2 - 1]);
                } else if k1 == p {
                    assert(o@[k2] == old_o[k2 - 1]);
                    assert(ranks_before(ps[i as int], i as int, ps[old_o[p as int] as int], old_o[p as int] as int));
                    if k2 - 1 > p {
                        assert(ranks_before(ps[old_o[p as int] as int], old_o[p as int] as int, ps[old_o[k2 - 1] as int], old_o[k2 - 1] as int));
                    }
                } else {
                    assert(o@[k1] == old_o[k1 - 1] && o@[k2] == old_o[k2 - 1]);
                }
            }
            assert forall|x: int| 0 <= x < i + 1 implies #[trigger] positions(o@).contains(x) by {
                if x == i {
                    assert(positions(o@)[p as int] == x);
                } else {
                    assert(positions(old_o).contains(x));
                    let k = choose|k: int| 0 <= k < old_o.len() && positions(old_o)[k] == x;
                    if k < p {
                        assert(positions(o@)[k] == x);
                    } else {
                        assert(positions(o@)[k + 1] == x);
                    }
                }
            }
            assert forall|k1: int, k2: int| 0 <= k1 < k2 < o@.len() implies o@[k1] != o@[k2] by {
                if k1 != p && k2 != p {
                    let a = if k1 < p { k1 } else { k1 - 1 };
                    let b = if k2 < p { k2 } else { k2 - 1 };
                    assert(o@[k1] == old_o[a] && o@[k2] == old_o[b]);
                } else if k1 == p {
                    assert(o@[k2] == old_o[k2 - 1]);
                } else {
                    assert(o@[k1] == old_o[k1]);
                }
            }
        }
        i = i + 1;
    }
    proof {
        let q = positions(o@);
        assert forall|k: int| 0 <= k < q.len() implies 0 <= #[trigger] q[k] < ps.len() by {
            assert(o@[k] < n);
        }
        assert forall|k1: int, k2: int| 0 <= k1 < k2 < q.len() implies q[k1] != q[k2] by {
            assert(o@[k1] != o@[k2]);
        }
        assert forall|k1: int, k2: int| 0 <= k1 < k2 < q.len() implies ranks_before(
            ps[q[k1]],
            #[trigger] q[k1],
            ps[q[k2]],
            #[trigger] q[k2],
        ) by {
            assert(ranks_before(ps[o@[k1] as int], o@[k1] as int, ps[o@[k2] as int], o@[k2] as int));
        }
    }
    o
}

impl Engine {
    /// The leaderboard, best first: every player's identifier, name, score,
    /// 1-based rank and places gained since the ranks were last remembered.
    pub fn rankings(&self) -> (r: Vec<Ranking>)
        requires
            well_formed(self@.state),
        ensures
            r.deep_view() == leaderboard(self@.state.players),
            is_ranking(self@.state.players, ranking(self@.state.players)),
    {
        let ghost ps = self.state.players@;
        let o = ranking_order(&self.state.players);
        proof {
            lemma_ranking_unique(ps, positions(o@), ranking(ps));
        }
        let mut r: Vec<Ranking> = Vec::new();
        let mut k: usize = 0;
        while k < o.len()
            invariant
                k <= o@.len(),
                o@.len() == ps.len(),
                ps == self.state.players@,
                positions(o@) == ranking(ps),
                is_ranking(ps, positions(o@)),
                well_formed(self@.state),
                r@.len() == k,
                forall|j: int| 0 <= j < k ==> (#[trigger] r@[j])@ == leaderboard(ps)[j],
            decreases o@.len() - k,
        {
            assert(positions(o@)[k as int] == o@[k as int] as int);
            assert(o@[k as int] < ps.len());
            let p = self.state.players.at(o[k]);
            assert(ps[o@[k as int] as int].previous_rank == p.previous_rank);
            let rank = k + 1;
            let delta: i64 = match p.previous_rank {
                Some(old) => {
                    assert(old <= ps.len());
                    (old as i64) - (rank as i64)
                },
                None => 0,
            };
            r.push(Ranking {
                id: p.id.clone(),
                username: p.username.clone(),
                score: p.score,
                rank,
                rank_delta: delta,
            });
            k = k + 1;
        }
        assert(r.deep_view() =~= leaderboard(ps));
        r
    }

    /// Remembers every player's current rank as its previous rank.
    fn commit_current_ranks(&mut self)
        requires
            well_formed(old(self)@.state),
        ensures
            final(self)@ == old(self)@.with_state(
                GameStateView { players: committed(old(self)@.state.players), ..old(self)@.state },
            ),
            well_formed(final(self)@.state),
    {
        commit_ranks(&mut self.state.players);
        proof {
            let ps = old(self)@.state.players;
            assert forall|i: int| 0 <= i < ps.len() implies match #[trigger] committed(ps)[i].previous_rank {
                Some(r) => r <= ps.len(),
                None => true,
            } by {
                lemma_place_of(ps, i);
            }
        }
    }
}

/// Where a roster position stands in a ranking: a place before the end.
pub(crate) proof fn lemma_place_of(ps: Seq<PlayerView>, i: int)
    requires
        exists|o: Seq<int>| is_ranking(ps, o),
        0 <= i < ps.len(),
    ensures
        0 <= place_of(ps, i) < ps.len(),
        ranking(ps)[place_of(ps, i)] == i,
{
    let o = ranking(ps);
    assert(is_ranking(ps, o));
    assert(o.contains(i));
}

fn commit_ranks(players: &mut PlayerMap)
    ensures
        final(players)@ == committed(old(players)@),
        exists|o: Seq<int>| is_ranking(old(players)@, o),
{
    let ghost ps = old(players)@;
    let o = ranking_order(players);
    proof {
        lemma_ranking_unique(ps, positions(o@), ranking(ps));
    }
    let n = o.len();
    let mut k: usize = 0;
    assert forall|j: int| 0 <= j < n implies (#[trigger] o@[j]) < n by {
        assert(positions(o@)[j] == o@[j] as int);
    }
    while k < n
        invariant
            k <= n,
            n == ps.len(),
            o@.len() == n,
            positions(o@) == ranking(ps),
            is_ranking(ps, positions(o@)),
            players@.len() == n,
            forall|j: int| 0 <= j < n ==> (#[trigger] o@[j]) < n,
            forall|j: int| 0 <= j < k ==> players@[(#[trigger] o@[j]) as int] == committed(ps)[o@[j] as int],
            forall|j: int| k <= j < n ==> players@[(#[trigger] o@[j]) as int] == ps[o@[j] as int],
        decreases n - k,
    {
        let idx = o[k];
        assert(positions(o@)[k as int] == idx as int);
        assert(place_of(ps, idx as int) == k) by {
            lemma_place_of(ps, idx as int);
            let c = place_of(ps, idx as int);
            if c != k {
                if c < k {
                    assert(positions(o@)[c] != positions(o@)[k as int]);
                } else {
                    assert(positions(o@)[k as int] != positions(o@)[c]);
                }
            }
        }
        assert(players@[idx as int] == ps[idx as int]);
        let mut p = players.at(idx).duplicate();
        p.previous_rank = Some(k + 1);
        let ghost before = players@;
        players.set(idx, p);
        proof {
            assert(players@[idx as int] == committed(ps)[idx as int]);
            assert forall|j: int| 0 <= j < n && j != k implies o@[j] != idx by {
                if j < k {
                    assert(positions(o@)[j] != positions(o@)[k as int]);
                } else {
                    assert(positions(o@)[k as int] != positions(o@)[j]);
                }
            }
            assert forall|j: int| 0 <= j < k + 1 implies players@[(#[trigger] o@[j]) as int] == committed(ps)[o@[j] as int] by {
                if j < k {
                    assert(before[o@[j] as int] == committed(ps)[o@[j] as int]);
                }
            }
            assert forall|j: int| k + 1 <= j < n implies players@[(#[trigger] o@[j]) as int] == ps[o@[j] as int] by {
                assert(before[o@[j] as int] == ps[o@[j] as int]);
            }
        }
        k = k + 1;
    }
    proof {
        assert forall|i: int| 0 <= i < n implies players@[i] == committed(ps)[i] by {
            assert(positions(o@).contains(i));
            let j = choose|j: int| 0 <= j < n && positions(o@)[j] == i;
            assert(o@[j] as int == i);
        }
        assert(players@ =~= committed(ps));
    }
}

fn has_option(options: &Vec<Choice>, id: &str) -> (r: bool)
    ensures
        r == has_option_id(options.deep_view(), id@),
{
    let ghost os = options.deep_view();
    let mut k: usize = 0;
    while k < options.len()
        invariant
            k <= os.len(),
            os == options.deep_view(),
            forall|j: int| 0 <= j < k ==> os[j].id != id@,
        decreases os.len() - k,
    {
        assert(os[k as int] == options@[k as int]@);
        if same_text(options[k].id.as_str(), id) {
            assert(os[k as int].id == id@);
            return true;
        }
        k = k + 1;
    }
    false
}

pub(crate) fn answered_already(subs: &Vec<Submission>, player_id: &str, qi: usize) -> (r: bool)
    ensures
        r == exists|k: int|
            0 <= k < subs@.len() && subs.deep_view()[k].player_id == player_id@
                && subs.deep_view()[k].question_index == qi,
{
    let ghost sv = subs.deep_view();
    let mut k: usize = 0;
    while k < subs.len()
        invariant
            k <= sv.len(),
            sv == subs.deep_view(),
            forall|j: int| 0 <= j < k ==> !(sv[j].player_id == player_id@ && sv[j].question_index == qi),
        decreases sv.len() - k,
    {
        assert(sv[k as int] == subs@[k as int]@);
        if subs[k].question_index == qi && same_text(subs[k].player_id.as_str(), player_id) {
            assert(sv[k as int].player_id == player_id@ && sv[k as int].question_index == qi);
            return true;
        }
        k = k + 1;
    }
    false
}

fn has_control(v: &Vec<char>) -> (r: bool)
    ensures
        r == exists|k: int| 0 <= k < v@.len() && is_control_char(v@[k]),
{
    let mut c: usize = 0;
    while c < v.len()
        invariant
            c <= v@.len(),
            forall|j: int| 0 <= j < c ==> !is_control_char(v@[j]),
        decreases v@.len() - c,
    {
        if is_control(v[c]) {
            return true;
        }
        c = c + 1;
    }
    false
}

fn name_taken(players: &PlayerMap, lower: &str) -> (r: bool)
    ensures
        r == exists|i: int| 0 <= i < players@.len() && str_lowercase(players@[i].username) == lower@,
{
    let mut i: usize = 0;
    while i < players.len()
        invariant
            i <= players@.len(),
            forall|j: int| 0 <= j < i ==> str_lowercase(players@[j].username) != lower@,
        decreases players@.len() - i,
    {
        let other = lowercase(players.at(i).username.as_str());
        if same_text(other.as_str(), lower) {
            assert(str_lowercase(players@[i as int].username) == lower@);
            return true;
        }
        i = i + 1;
    }
    false
}

/// Whether `answer` has the form `question` asks for; the error if not.
pub(crate) fn answer_form_check(question: &Question, answer: &SubmittedAnswer) -> (r: Option<String>)
    ensures
        r.deep_view() == answer_form_error(question@, answer@),
{
    match answer {
        SubmittedAnswer::MultipleChoice { option_id } => match question {
            Question::MultipleChoice { options, .. } => if has_option(options, option_id.as_str()) {
                None
            } else {
                Some(text("That answer is not valid for this question."))
            },
            Question::FreeText { .. } => Some(text("That answer is not valid for this question.")),
        },
        SubmittedAnswer::FreeText { text: t } => match question {
            Question::FreeText { .. } => {
                if !blank(t.as_str()) && char_count(t.as_str()) <= 120 {
                    None
                } else {
                    Some(text("Enter an answer up to 120 characters."))
                }
            },
            Question::MultipleChoice { .. } => Some(
                text("That answer is not valid for this question."),
            ),
        },
    }
}

/// `c` is a lower-case hexadecimal digit.
pub open spec fn is_lower_hex_digit(c: char) -> bool {
    ('0' <= c && c <= '9') || ('a' <= c && c <= 'f')
}

/// `s` is a version-4 UUID in hyphenated lower-case form, such as
/// `67e55044-10b1-426f-9247-bb680e5fe0c8`: 36 characters, hyphens at 8, 13,
/// 18 and 23, lower-case hexadecimal digits elsewhere, the version digit `4`
/// at 14 and one of `8`, `9`, `a`, `b` at 19.
pub open spec fn is_uuid_v4_text(s: Seq<char>) -> bool {
    &&& s.len() == 36
    &&& forall|i: int|
        0 <= i < 36 ==> if i == 8 || i == 13 || i == 18 || i == 23 {
            #[trigger] s[i] == '-'
        } else {
            is_lower_hex_digit(s[i])
        }
    &&& s[14] == '4'
    &&& (s[19] == '8' || s[19] == '9' || s[19] == 'a' || s[19] == 'b')
}

/// Trusted: `Uuid::new_v4().to_string()`, a fresh random identifier.
/// `new_v4` masks random bits with the version (4) and the RFC 4122
/// variant, and `Display` writes the hyphenated lower-case form; which bits
/// were drawn is not stated.
#[verifier::external_body]
fn random_player_id() -> (id: String)
    ensures
        is_uuid_v4_text(id@),
{
    uuid::Uuid::new_v4().to_string()
}

impl Engine {
    /// Whether every player allowed to answer question `question_index`
    /// (there is at least one) has answered it.
    fn all_eligible_players_answered(&self, question_index: usize) -> (r: bool)
        ensures
            r == all_answered(self@.state, question_index),
    {
        let ghost ps = self.state.players@;
        let ghost subs = self.state.submissions.deep_view();
        let mut eligible: usize = 0;
        let mut i: usize = 0;
        while i < self.state.players.len()
            invariant
                i <= ps.len(),
                ps == self.state.players@,
                eligible == eligible_count(ps, question_index, i as nat),
                eligible <= i,
            decreases ps.len() - i,
        {
            if self.state.players.at(i).eligible_from_question <= question_index {
                eligible = eligible + 1;
            }
            i = i + 1;
        }
        if eligible == 0 {
            return false;
        }
        let mut submitted: usize = 0;
        let mut k: usize = 0;
        while k < self.state.submissions.len()
            invariant
                k <= subs.len(),
                subs == self.state.submissions.deep_view(),
                submitted == submitted_count(subs, question_index, k as nat),
                submitted <= k,
            decreases subs.len() - k,
        {
            assert(subs[k as int] == self.state.submissions@[k as int]@);
            if self.state.submissions[k].question_index == question_index {
                submitted = submitted + 1;
            }
            k = k + 1;
        }
        submitted >= eligible
    }

    /// Player `player_id` answers the open question at `now_ms`. The first
    /// answer counts; it is timed from when answers opened; once every
    /// player allowed to answer has answered, the answers are scored and
    /// revealed at once.
    pub fn submit(&mut self, player_id: &str, answer: SubmittedAnswer, now_ms: i64) -> (r: Result<
        (),
        String,
    >)
        requires
            well_formed(old(self)@.state),
            submit_fits(old(self)@.state, player_id@, answer@, now_ms),
        ensures
            final(self)@ == old(self)@.with_state(
                submit_spec(old(self)@.state, player_id@, answer@, now_ms).0,
            ),
            unit_result(r) == submit_spec(old(self)@.state, player_id@, answer@, now_ms).1,
            well_formed(final(self)@.state),
    {
        let (question_index, started_at_ms, deadline_ms) = match &self.state.phase {
            Phase::Answering { question_index, started_at_ms, deadline_ms } => (
                *question_index,
                *started_at_ms,
                *deadline_ms,
            ),
            _ => {
                return Err(text("Answers are not open."));
            },
        };
        if now_ms >= deadline_ms {
            return Err(text("Time is up for this question."));
        }
        let pi = match self.state.players.position(player_id) {
            None => {
                return Err(text("Player session was not found."));
            },
            Some(i) => i,
        };
        if self.state.players.at(pi).eligible_from_question > question_index {
            return Err(text("You can start answering on the next question."));
        }
        let ghost subs = self.state.submissions.deep_view();
        if answered_already(&self.state.submissions, player_id, question_index) {
            return Err(text("Your first answer is already locked in."));
        }
        let form = match self.active_game() {
            Err(e) => {
                return Err(e);
            },
            Ok(g) => answer_form_check(&g.questions[question_index], &answer),
        };
        match form {
            Some(e) => {
                return Err(e);
            },
            None => {},
        }
        let response_ms = elapsed(now_ms, started_at_ms);
        let ghost answer_view = answer@;
        self.state.submissions.push(
            Submission {
                player_id: text(player_id),
                question_index,
                answer,
                response_ms,
                correct: None,
                points: None,
            },
        );
        assert(self.state.submissions.deep_view() =~= subs.push(
            submission_at(old(self)@.state, player_id@, answer_view, now_ms),
        ));
        if self.all_eligible_players_answered(question_index) {
            match self.finish_answering(question_index) {
                Err(e) => {
                    return Err(e);
                },
                Ok(()) => {},
            }
            self.state.phase = Phase::Reveal { question_index };
        }
        self.bump();
        Ok(())
    }

    /// Player `username` joins with session `token_hash` under identifier
    /// `id`, returning the identifier. The name is trimmed; it must have 1 to
    /// 24 characters, no control character, and differ in lower case from
    /// every other player's. A player joining during a question may answer
    /// from the next one.
    pub fn join_player_with_id(&mut self, username: &str, token_hash: String, id: String) -> (r:
        Result<String, String>)
        requires
            well_formed(old(self)@.state),
            join_fits(old(self)@),
        ensures
            final(self)@ == join_spec(old(self)@, username@, token_hash@, id@).0,
            text_result(r) == join_spec(old(self)@, username@, token_hash@, id@).1,
            well_formed(final(self)@.state),
    {
        let name_chars = crate::text::trim_chars(username);
        let length = name_chars.len();
        if length < 1 || length > 24 {
            return Err(text("Use a username between 1 and 24 characters."));
        }
        if has_control(&name_chars) {
            return Err(text("Use a username between 1 and 24 characters."));
        }
        let name = crate::text::string_from_chars(&name_chars);
        let lower = lowercase(name.as_str());
        let ghost ps = self.state.players@;
        if name_taken(&self.state.players, lower.as_str()) {
            return Err(text("That username is already in use on this Hoot."));
        }
        let eligible_from_question = match self.current_question_index() {
            Some(index) => index + 1,
            None => 0,
        };
        let player = Player {
            id: id.clone(),
            username: name,
            token_hash,
            score: 0,
            correct_count: 0,
            correct_response_ms: 0,
            joined_order: self.state.next_join_order,
            eligible_from_question,
            previous_rank: None,
        };
        let ghost pv = player@;
        proof {
            use_type_invariant(&self.state.players);
        }
        self.state.next_join_order = self.state.next_join_order + 1;
        self.state.players.insert(player);
        proof {
            lemma_stored(ps, pv);
            let ns = stored(ps, pv);
            assert(ns.len() >= ps.len());
            assert forall|j: int| 0 <= j < ns.len() implies match #[trigger] ns[j].previous_rank {
                Some(r) => r <= ns.len(),
                None => true,
            } by {
                assert(ns.contains(ns[j]));
                if ns[j] != pv {
                    assert(ps.contains(ns[j]));
                    let m = choose|m: int| 0 <= m < ps.len() && ps[m] == ns[j];
                    assert(ps[m].previous_rank == ns[j].previous_rank);
                }
            }
        }
        self.bump();
        Ok(id)
    }

    /// Player `username` joins with session `token_hash` under a fresh
    /// random identifier (a version-4 UUID in hyphenated lower-case form),
    /// which is returned.
    pub fn join_player(&mut self, username: &str, token_hash: String) -> (r: Result<String, String>)
        requires
            well_formed(old(self)@.state),
            join_fits(old(self)@),
        ensures
            exists|id: Seq<char>|
                is_uuid_v4_text(id) && final(self)@ == join_spec(old(self)@, username@, token_hash@, id).0 && text_result(r)
                    == join_spec(old(self)@, username@, token_hash@, id).1,
            well_formed(final(self)@.state),
    {
        let id = random_player_id();
        let ghost idv = id@;
        let r = self.join_player_with_id(username, token_hash, id);
        assert(final(self)@ == join_spec(old(self)@, username@, token_hash@, idv).0);
        r
    }
}

} // verus!
