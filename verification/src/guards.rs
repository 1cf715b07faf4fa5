//! Whether an operation can run without overflowing. Each check computes
//! exactly the condition the operation requires, so that code outside the
//! verified library can test it before making the call.
use vstd::prelude::*;
use crate::engine::{
    answer_form_check, answered_already,
    advance_fits, credits_fit, current_question_index, deadline_fits, earned, elapsed,
    eligible_count, join_fits, leaderboard, lemma_credits_prefix, lemma_scored_shape, scored_through,
    scoring_fits, start_fits, submission_at, submit_fits, submitted_count, tick_fits, tick_step,
    well_formed, Engine, GameStateView,
};
use crate::matching::answer_is_correct;
use crate::scoring::speed_points_of;
use crate::content::lemma_game_index;
use crate::model::{Question, Submission, SubmittedAnswer, ANSWER_STYLE_COUNT};
use crate::players::{ids_sorted, index_of, lemma_index_of_sorted, PlayerMap};
use crate::session::{execute_fits, ClientCommand, ClientIdentity};
use crate::snapshot::{
    current_question, lemma_has_line, lemma_line_place, line_of, snapshot_fits, styled,
};
use crate::text::{owned, same_text, text_lt};

verus! {

fn deadline_ok(a: i64, seconds: u64) -> (r: bool)
    ensures
        r == deadline_fits(a, seconds),
{
    let s = #[verifier::truncate] (seconds as i64);
    let ms: i128 = (s as i128) * 1000;
    if ms < i64::MIN as i128 || ms > i64::MAX as i128 {
        return false;
    }
    let sum: i128 = (a as i128) + ms;
    sum >= i64::MIN as i128 && sum <= i64::MAX as i128
}

fn eligible_players(players: &PlayerMap, qi: usize) -> (n: usize)
    ensures
        n == eligible_count(players@, qi, players@.len()),
{
    let ghost ps = players@;
    let mut n: usize = 0;
    let mut i: usize = 0;
    while i < players.len()
        invariant
            i <= ps.len(),
            ps == players@,
            n == eligible_count(ps, qi, i as nat),
            n <= i,
        decreases ps.len() - i,
    {
        if players.at(i).eligible_from_question <= qi {
            n = n + 1;
        }
        i = i + 1;
    }
    n
}

fn answers_to(subs: &Vec<Submission>, qi: usize) -> (n: usize)
    ensures
        n == submitted_count(subs.deep_view(), qi, subs@.len() as nat),
{
    let ghost ss = subs.deep_view();
    let mut n: usize = 0;
    let mut k: usize = 0;
    while k < subs.len()
        invariant
            k <= ss.len(),
            ss == subs.deep_view(),
            n == submitted_count(ss, qi, k as nat),
            n <= k,
        decreases ss.len() - k,
    {
        assert(ss[k as int] == subs@[k as int]@);
        if subs[k].question_index == qi {
            n = n + 1;
        }
        k = k + 1;
    }
    n
}

/// A dry run of crediting the answers to question `qi`: whether every step
/// stays in range.
fn credits_ok(players: &PlayerMap, subs: &Vec<Submission>, qi: usize, question: &Question, limit_ms: u64) -> (r: bool)
    ensures
        r == credits_fit(players@, subs.deep_view(), qi, question@, limit_ms as nat, subs@.len() as nat),
{
    proof {
        use_type_invariant(players);
    }
    let ghost ps0 = players@;
    let ghost subs0 = subs.deep_view();
    let ghost q = question@;
    let ghost lim = limit_ms as nat;
    let n = subs.len();
    let double = question.double_points();
    let mut totals: Vec<(i64, u32, u64)> = Vec::new();
    let mut i: usize = 0;
    while i < players.len()
        invariant
            i <= ps0.len(),
            ps0 == players@,
            totals@.len() == i,
            forall|j: int|
                0 <= j < i ==> #[trigger] totals@[j] == (
                    ps0[j].score,
                    ps0[j].correct_count,
                    ps0[j].correct_response_ms,
                ),
        decreases ps0.len() - i,
    {
        let p = players.at(i);
        totals.push((p.score, p.correct_count, p.correct_response_ms));
        i = i + 1;
    }
    let mut k: usize = 0;
    while k < n
        invariant
            k <= n,
            n == subs0.len(),
            subs0 == subs.deep_view(),
            ps0 == players@,
            ids_sorted(ps0),
            double == q.double_points(),
            q == question@,
            lim == limit_ms as nat,
            credits_fit(ps0, subs0, qi, q, lim, k as nat),
            totals@.len() == ps0.len(),
            forall|j: int|
                0 <= j < ps0.len() ==> #[trigger] totals@[j] == (
                    scored_through(ps0, subs0, qi, q, lim, k as nat).0[j].score,
                    scored_through(ps0, subs0, qi, q, lim, k as nat).0[j].correct_count,
                    scored_through(ps0, subs0, qi, q, lim, k as nat).0[j].correct_response_ms,
                ),
        decreases n - k,
    {
        let ghost sk = scored_through(ps0, subs0, qi, q, lim, k as nat).0;
        proof {
            lemma_scored_shape(ps0, subs0, qi, q, lim, k as nat);
            lemma_scored_shape(ps0, subs0, qi, q, lim, (k + 1) as nat);
            assert(subs0[k as int] == subs@[k as int]@);
            assert(ids_sorted(sk)) by {
                assert forall|a: int, b: int| 0 <= a < b < sk.len() implies text_lt(
                    #[trigger] sk[a].id,
                    #[trigger] sk[b].id,
                ) by {
                    assert(sk[a].id == ps0[a].id && sk[b].id == ps0[b].id);
                }
            }
        }
        if subs[k].question_index == qi {
            let correct = answer_is_correct(question, &subs[k].answer);
            let response_ms = subs[k].response_ms;
            let points: i64 = if correct {
                let base = speed_points_of(response_ms, limit_ms);
                if double {
                    (base * 2) as i64
                } else {
                    base as i64
                }
            } else {
                0
            };
            assert(points == earned(q, subs0[k as int], lim));
            match players.position(subs[k].player_id.as_str()) {
                Some(i) => {
                    proof {
                        lemma_index_of_sorted(sk, i as int, subs0[k as int].player_id);
                    }
                    let (score, count, spent) = totals[i];
                    let sum = (score as i128) + (points as i128);
                    let fits = sum >= i64::MIN as i128 && sum <= i64::MAX as i128 && (!correct || (
                    count < u32::MAX && (spent as u128) + (response_ms as u128) <= u64::MAX as u128));
                    if !fits {
                        proof {
                            assert(!credits_fit(ps0, subs0, qi, q, lim, (k + 1) as nat));
                            if credits_fit(ps0, subs0, qi, q, lim, n as nat) {
                                lemma_credits_prefix(ps0, subs0, qi, q, lim, (k + 1) as nat, n as nat);
                            }
                        }
                        return false;
                    }
                    let next = (
                        (score + points) as i64,
                        if correct { count + 1 } else { count },
                        if correct { spent + response_ms } else { spent },
                    );
                    totals.set(i, next);
                },
                None => {
                    proof {
                        if index_of(sk, subs0[k as int].player_id) is Some {
                            let j = index_of(sk, subs0[k as int].player_id)->0;
                            assert(ps0[j].id == sk[j].id);
                        }
                    }
                },
            }
        }
        k = k + 1;
    }
    true
}

/// The submissions with one more appended.
fn with_submission(subs: &Vec<Submission>, extra: Submission) -> (r: Vec<Submission>)
    ensures
        r.deep_view() == subs.deep_view().push(extra@),
{
    let mut r: Vec<Submission> = Vec::new();
    let mut k: usize = 0;
    while k < subs.len()
        invariant
            k <= subs@.len(),
            r@.len() == k,
            forall|j: int| 0 <= j < k ==> (#[trigger] r@[j])@ == subs@[j]@,
        decreases subs@.len() - k,
    {
        let s = &subs[k];
        r.push(
            Submission {
                player_id: s.player_id.clone(),
                question_index: s.question_index,
                answer: s.answer.duplicate(),
                response_ms: s.response_ms,
                correct: s.correct,
                points: s.points,
            },
        );
        k = k + 1;
    }
    r.push(extra);
    assert(r.deep_view() =~= subs.deep_view().push(extra@));
    r
}

impl Engine {
    fn scoring_ok(&self, qi: usize, subs: &Vec<Submission>) -> (r: bool)
        ensures
            r == scoring_fits(GameStateView { submissions: subs.deep_view(), ..self@.state }, qi),
    {
        match &self.state.active_game {
            None => true,
            Some(g) => {
                if qi >= g.questions.len() {
                    return false;
                }
                assert(g.questions.deep_view()[qi as int] == g.questions@[qi as int]@);
                let limit = g.questions[qi].time_limit_seconds();
                if limit > u64::MAX / 1000 {
                    return false;
                }
                credits_ok(&self.state.players, subs, qi, &g.questions[qi], limit * 1000)
            },
        }
    }

    /// Whether `join_player` can run: the join counter, the roster and the
    /// next question's number stay in range.
    pub fn can_join(&self) -> (r: bool)
        ensures
            r == join_fits(self@),
    {
        let index_ok = match self.current_question_index() {
            Some(i) => i < usize::MAX,
            None => true,
        };
        self.state.next_join_order < u64::MAX && (self.state.players.len() as u128) < (
        i64::MAX as u128) && index_ok
    }

    /// Whether `start_game` can run at `now_ms`: when players have joined,
    /// the lobby's game has a first question whose reading deadline fits.
    pub fn can_start(&self, now_ms: i64) -> (r: bool)
        ensures
            r == start_fits(self@, now_ms),
    {
        if self.state.players.len() == 0 {
            return true;
        }
        match &self.state.phase {
            crate::model::Phase::Lobby { game_id } => {
                proof {
                    lemma_game_index(self@.catalog.games, game_id@);
                }
                match self.catalog.game(game_id.as_str()) {
                    Some(g) => {
                        if g.questions.len() == 0 {
                            return false;
                        }
                        assert(g.questions.deep_view()[0] == g.questions@[0]@);
                        deadline_ok(now_ms, g.questions[0].reading_time_seconds())
                    },
                    None => true,
                }
            },
            _ => true,
        }
    }

    /// Whether `advance_host` can run at `now_ms`.
    pub fn can_advance(&self, now_ms: i64) -> (r: bool)
        requires
            well_formed(self@.state),
        ensures
            r == advance_fits(self@.state, now_ms),
    {
        if let crate::model::Phase::Leaderboard { question_index } = &self.state.phase {
            if *question_index == usize::MAX {
                return false;
            }
        }
        let g = match &self.state.active_game {
            Some(g) => g,
            None => return true,
        };
        match &self.state.phase {
            crate::model::Phase::Reading { question_index, .. } => {
                assert(g.questions.deep_view()[*question_index as int] == g.questions@[*question_index as int]@);
                deadline_ok(now_ms, g.questions[*question_index].time_limit_seconds())
            },
            crate::model::Phase::Answering { question_index, .. } => self.scoring_ok(
                *question_index,
                &self.state.submissions,
            ),
            crate::model::Phase::Leaderboard { question_index } => {
                let next = *question_index + 1;
                assert(g.questions.deep_view()[next as int] == g.questions@[next as int]@);
                deadline_ok(now_ms, g.questions[next].reading_time_seconds())
            },
            _ => true,
        }
    }

    /// Whether `tick` can run at `now_ms`: each deadline that has passed
    /// leads to a transition that stays in range.
    pub fn can_tick(&self, now_ms: i64) -> (r: bool)
        requires
            well_formed(self@.state),
        ensures
            r == tick_fits(self@.state, now_ms),
    {
        let ghost st = self@.state;
        let g = match &self.state.active_game {
            Some(g) => g,
            None => return true,
        };
        match &self.state.phase {
            crate::model::Phase::Reading { question_index, deadline_ms } => {
                if now_ms < *deadline_ms {
                    return true;
                }
                assert(g.questions.deep_view()[*question_index as int] == g.questions@[*question_index as int]@);
                let limit = g.questions[*question_index].time_limit_seconds();
                if !deadline_ok(*deadline_ms, limit) {
                    return false;
                }
                let next_deadline = *deadline_ms + (#[verifier::truncate] (limit as i64)) * 1000;
                proof {
                    let s1 = tick_step(st, now_ms)->Some_0->Ok_0;
                    assert(scoring_fits(s1, *question_index) == scoring_fits(st, *question_index));
                }
                if now_ms >= next_deadline {
                    self.scoring_ok(*question_index, &self.state.submissions)
                } else {
                    true
                }
            },
            crate::model::Phase::Answering { question_index, deadline_ms, .. } => {
                if now_ms < *deadline_ms {
                    return true;
                }
                self.scoring_ok(*question_index, &self.state.submissions)
            },
            _ => true,
        }
    }

    /// Whether `submit` can run for `player_id` answering `answer` at
    /// `now_ms`: if the answer completes the question, scoring it stays in range.
    pub fn can_submit(&self, player_id: &str, answer: &SubmittedAnswer, now_ms: i64) -> (r: bool)
        requires
            well_formed(self@.state),
        ensures
            r == submit_fits(self@.state, player_id@, answer@, now_ms),
    {
        match &self.state.phase {
            crate::model::Phase::Answering { question_index, started_at_ms, deadline_ms } => {
                if now_ms >= *deadline_ms {
                    return true;
                }
                let pi = match self.state.players.position(player_id) {
                    Some(pi) => pi,
                    None => return true,
                };
                if self.state.players.at(pi).eligible_from_question > *question_index {
                    return true;
                }
                if answered_already(&self.state.submissions, player_id, *question_index) {
                    return true;
                }
                let g = match &self.state.active_game {
                    Some(g) => g,
                    None => return true,
                };
                assert(g.questions.deep_view()[*question_index as int] == g.questions@[*question_index as int]@);
                if answer_form_check(&g.questions[*question_index], answer).is_some() {
                    return true;
                }
                let extra = Submission {
                    player_id: owned(player_id),
                    question_index: *question_index,
                    answer: answer.duplicate(),
                    response_ms: elapsed(now_ms, *started_at_ms),
                    correct: None,
                    points: None,
                };
                assert(extra@ == submission_at(self@.state, player_id@, answer@, now_ms));
                let pushed = with_submission(&self.state.submissions, extra);
                let eligible = eligible_players(&self.state.players, *question_index);
                let answered = answers_to(&pushed, *question_index);
                if eligible > 0 && answered >= eligible {
                    self.scoring_ok(*question_index, &pushed)
                } else {
                    true
                }
            },
            _ => true,
        }
    }
}

impl Engine {
    /// Whether `execute_command` can run for `command` from `identity` at `now_ms`.
    pub fn can_execute(&self, identity: &ClientIdentity, command: &ClientCommand, now_ms: i64) -> (r: bool)
        requires
            well_formed(self@.state),
        ensures
            r == execute_fits(self@, identity@, command@, now_ms),
    {
        match identity {
            ClientIdentity::Player(id) => match command {
                ClientCommand::SubmitMultipleChoice { option_id } => self.can_submit(
                    id.as_str(),
                    &SubmittedAnswer::MultipleChoice { option_id: option_id.clone() },
                    now_ms,
                ),
                ClientCommand::SubmitFreeText { text } => self.can_submit(
                    id.as_str(),
                    &SubmittedAnswer::FreeText { text: text.clone() },
                    now_ms,
                ),
                _ => true,
            },
            ClientIdentity::Host(token_hash) => {
                let current = match &self.state.host_token_hash {
                    Some(t) => same_text(t.as_str(), token_hash.as_str()),
                    None => false,
                };
                match command {
                    ClientCommand::HostStart => !current || self.can_start(now_ms),
                    ClientCommand::HostAdvance => !current || self.can_advance(now_ms),
                    _ => true,
                }
            },
        }
    }

    fn current_styled(&self) -> (r: bool)
        ensures
            r == styled(current_question(self@.state)),
    {
        match self.current_question() {
            Some(crate::model::Question::MultipleChoice { options, .. }) => options.len()
                <= ANSWER_STYLE_COUNT,
            _ => true,
        }
    }

    /// Whether the picture for `identity` can be built (`snapshot_for`).
    pub fn can_show(&self, identity: &ClientIdentity) -> (r: bool)
        requires
            well_formed(self@.state),
        ensures
            r == snapshot_fits(self@.state, identity@),
    {
        let current = self.current_question_index();
        let numbered_ok = match current {
            Some(i) => i < usize::MAX,
            None => true,
        };
        match identity {
            ClientIdentity::Host(token_hash) => {
                let is_current = match &self.state.host_token_hash {
                    Some(t) => same_text(t.as_str(), token_hash.as_str()),
                    None => false,
                };
                !is_current || (numbered_ok && self.current_styled())
            },
            ClientIdentity::Player(id) => {
                if !numbered_ok {
                    return false;
                }
                proof {
                    use_type_invariant(&self.state.players);
                }
                let ghost ps = self@.state.players;
                let i = match self.state.players.position(id.as_str()) {
                    Some(i) => i,
                    None => return true,
                };
                let player = self.state.players.at(i);
                let eligible = match current {
                    Some(qi) => player.eligible_from_question <= qi,
                    None => true,
                };
                let answering = match &self.state.phase {
                    crate::model::Phase::Answering { .. } => true,
                    _ => false,
                };
                if answering && eligible && !self.current_styled() {
                    return false;
                }
                let rankings = self.rankings();
                let line = line_of(&rankings, id.as_str());
                proof {
                    assert(rankings.deep_view().len() == rankings@.len());
                    match line {
                        Some(k) => {
                            lemma_line_place(ps, i as int, k as int);
                        },
                        None => {
                            lemma_has_line(ps, i as int);
                        },
                    }
                }
                match line {
                    Some(k) => {
                        if k == 0 {
                            true
                        } else {
                            assert(rankings@[k as int - 1]@ == leaderboard(ps)[k - 1]);
                            let gap = (rankings[k - 1].score as i128) - (player.score as i128);
                            gap >= i64::MIN as i128 && gap <= i64::MAX as i128
                        }
                    },
                    None => true,
                }
            },
        }
    }
}

} // verus!
