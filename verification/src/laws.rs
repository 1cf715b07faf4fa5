//! Properties of the event that span several operations: who may join and
//! answer, how often, when answers open and close, how answers are scored
//! and credited, how the leaderboard orders players, what selecting,
//! starting and advancing a game do, who is let in and who controls the
//! host screen, what a loaded catalog obeys, what a reload replaces or
//! leaves behind, and what the host's and players' screens show.
use vstd::prelude::*;
use crate::content::{lemma_game_index, lemma_games_ok, lemma_questions_ok, loaded, MediaFactsView};
use crate::engine::{
    advance_host_spec, all_answered, bump_state, committed, credited, current_question_index,
    deadline_fits, earned, elapsed_ms,
    finished, is_ranking, join_spec, leaderboard, lemma_place_of, lemma_ranking_exists,
    lemma_ranking_unique, lemma_scored_shape, newcomer, place_of, ranking, ranking_line,
    ranks_before, reload_catalog_spec, token_index, scored_through, seconds_ms, select_game_spec, start_game_spec,
    submission_at, submit_spec,
    scoring_fits, credits_fit, in_i64, tick_spec, verdict, well_formed, EngineView, GameStateView,
};
use crate::content::CatalogView;
use crate::model::{
    AnswerView, GameView, PhaseView, PlayerView, QuestionView, SubmissionView, ANSWER_STYLE_COUNT,
};
use crate::players::{connection_count, ids_sorted, index_of, lemma_stored};
use crate::scoring::{lemma_speed_points_monotone, lemma_speed_points_range};
use crate::session::{
    authenticate_spec, claim_host_spec, closed_view, execute_spec, opened_view, token_hash_of,
    CommandView, IdentityView,
};
use crate::snapshot::{chosen_count, host_picture, player_picture, reveals};
use crate::text::{is_blank, is_control_char, lemma_text_lt_irreflexive, str_lowercase, text_lt, trim};

verus! {

/// No two players have names that are equal ignoring case.
pub open spec fn names_distinct(ps: Seq<PlayerView>) -> bool {
    forall|i: int, j: int|
        #![trigger ps[i], ps[j]]
        0 <= i < j < ps.len() ==> str_lowercase(ps[i].username) != str_lowercase(ps[j].username)
}

/// Joining keeps player names unique ignoring case: a name already taken in
/// any case is refused, and the roster never holds two such names.
pub proof fn lemma_join_keeps_names_distinct(
    e: EngineView,
    username: Seq<char>,
    token_hash: Seq<char>,
    id: Seq<char>,
)
    requires
        ids_sorted(e.state.players),
        names_distinct(e.state.players),
    ensures
        names_distinct(join_spec(e, username, token_hash, id).0.state.players),
{
    let r = join_spec(e, username, token_hash, id);
    if r.1 is Ok {
        let ps = e.state.players;
        let t = r.0.state.players;
        let p0 = newcomer(e, username, token_hash, id);
        lemma_stored(ps, p0);
        assert forall|i: int, j: int|
            #![trigger t[i], t[j]]
            0 <= i < j < t.len() implies str_lowercase(t[i].username) != str_lowercase(t[j].username) by {
            assert(text_lt(t[i].id, t[j].id));
            lemma_text_lt_irreflexive(t[i].id);
            assert(t.contains(t[i]));
            assert(t.contains(t[j]));
            if t[i] == p0 {
                assert(ps.contains(t[j]));
            } else if t[j] == p0 {
                assert(ps.contains(t[i]));
            } else {
                assert(ps.contains(t[i]));
                assert(ps.contains(t[j]));
                let a = choose|a: int| 0 <= a < ps.len() && ps[a] == t[i];
                let b = choose|b: int| 0 <= b < ps.len() && ps[b] == t[j];
                assert(a != b);
                if a < b {
                    assert(str_lowercase(ps[a].username) != str_lowercase(ps[b].username));
                } else {
                    assert(str_lowercase(ps[b].username) != str_lowercase(ps[a].username));
                }
            }
        }
    }
}

/// Joining succeeds exactly when the trimmed name has 1 to 24 characters,
/// none of them a control character, and no player's name equals it
/// ignoring case. A refused join changes nothing. A successful one returns
/// the identifier and adds a player under it with the trimmed name, the
/// session, no points, no correct answers, no remembered rank, the next join
/// order, and allowed to answer from the question after the current one
/// (from the first when none is under way); every other player stays.
pub proof fn lemma_join_outcome(e: EngineView, username: Seq<char>, token_hash: Seq<char>, id: Seq<char>)
    requires
        ids_sorted(e.state.players),
        current_question_index(e.state) matches Some(q) ==> q < usize::MAX,
        e.state.next_join_order < u64::MAX,
    ensures
        ({
            let r = join_spec(e, username, token_hash, id);
            let name = trim(username);
            let before = e.state.players;
            let after = r.0.state.players;
            &&& r.1 is Ok <==> (1 <= name.len() <= 24 && (forall|k: int|
                0 <= k < name.len() ==> !is_control_char(#[trigger] name[k])) && forall|i: int|
                0 <= i < before.len() ==> str_lowercase(#[trigger] before[i].username)
                    != str_lowercase(name))
            &&& r.1 is Err ==> r.0 == e
            &&& r.1 is Ok ==> {
                &&& r.1 == Ok::<Seq<char>, Seq<char>>(id)
                &&& r.0.state.next_join_order == e.state.next_join_order + 1
                &&& index_of(after, id) matches Some(k) && {
                    let p = after[k];
                    &&& p.id == id
                    &&& p.username == name
                    &&& p.token_hash == token_hash
                    &&& p.score == 0
                    &&& p.correct_count == 0
                    &&& p.correct_response_ms == 0
                    &&& p.previous_rank is None
                    &&& p.joined_order == e.state.next_join_order
                    &&& p.eligible_from_question == match current_question_index(e.state) {
                        Some(q) => q + 1,
                        None => 0,
                    }
                }
                &&& forall|i: int| 0 <= i < before.len() && before[i].id != id ==> after.contains(
                    #[trigger] before[i],
                )
            }
        }),
{
    let r = join_spec(e, username, token_hash, id);
    if r.1 is Ok {
        lemma_stored(e.state.players, newcomer(e, username, token_hash, id));
    }
}

/// A player who joins while a question is under way cannot answer it: they
/// may answer from the next question on, and an answer now is refused.
pub proof fn lemma_late_joiner_waits(
    e: EngineView,
    username: Seq<char>,
    token_hash: Seq<char>,
    id: Seq<char>,
    answer: AnswerView,
    now_ms: i64,
)
    requires
        ids_sorted(e.state.players),
        e.state.phase matches PhaseView::Answering { question_index, .. } && question_index
            < usize::MAX,
        join_spec(e, username, token_hash, id).1 is Ok,
    ensures
        ({
            let after = join_spec(e, username, token_hash, id).0.state;
            let qi = e.state.phase->Answering_question_index;
            &&& index_of(after.players, id) matches Some(k) && after.players[k].eligible_from_question
                == qi + 1
            &&& submit_spec(after, id, answer, now_ms).1 is Err
        }),
{
    let p = newcomer(e, username, token_hash, id);
    lemma_stored(e.state.players, p);
}

/// Answering succeeds exactly while a question is open and its deadline has
/// not come, for a player on the roster who may answer this question and
/// has not answered it yet, with an answer of the question's kind: one of
/// its options for a multiple-choice question, a non-blank text of at most
/// 120 characters for a free-text one. A refused answer changes nothing. An
/// accepted one is recorded after the earlier answers, for this player and
/// question, with the time since answers opened as its response time.
pub proof fn lemma_submit_outcome(st: GameStateView, player_id: Seq<char>, answer: AnswerView, now_ms: i64)
    requires
        ids_sorted(st.players),
    ensures
        ({
            let r = submit_spec(st, player_id, answer, now_ms);
            let n = st.submissions.len();
            &&& r.1 is Ok <==> match st.phase {
                PhaseView::Answering { question_index, deadline_ms, .. } => {
                    &&& now_ms < deadline_ms
                    &&& exists|i: int|
                        0 <= i < st.players.len() && #[trigger] st.players[i].id == player_id
                            && st.players[i].eligible_from_question <= question_index
                    &&& !(exists|k: int|
                        0 <= k < n && #[trigger] st.submissions[k].player_id == player_id
                            && st.submissions[k].question_index == question_index)
                    &&& match st.active_game {
                        Some(g) => match (g.questions[question_index as int], answer) {
                            (
                                QuestionView::MultipleChoice { options, .. },
                                AnswerView::MultipleChoice { option_id },
                            ) => exists|k: int|
                                0 <= k < options.len() && #[trigger] options[k].id == option_id,
                            (QuestionView::FreeText { .. }, AnswerView::FreeText { text }) =>
                                !is_blank(text) && text.len() <= 120,
                            _ => false,
                        },
                        None => false,
                    }
                },
                _ => false,
            }
            &&& r.1 is Err ==> r.0 == st
            &&& r.1 is Ok ==> {
                &&& r.0.submissions.len() == n + 1
                &&& forall|k: int| 0 <= k < n ==> (#[trigger] r.0.submissions[k]).player_id
                    == st.submissions[k].player_id && r.0.submissions[k].question_index
                    == st.submissions[k].question_index && r.0.submissions[k].answer
                    == st.submissions[k].answer
                &&& r.0.submissions[n as int].player_id == player_id
                &&& r.0.submissions[n as int].answer == answer
                &&& st.phase matches PhaseView::Answering { question_index, started_at_ms, .. }
                    && r.0.submissions[n as int].question_index == question_index && (0 <= now_ms
                    - started_at_ms <= i64::MAX ==> r.0.submissions[n as int].response_ms == now_ms
                    - started_at_ms)
            }
        }),
{
    let r = submit_spec(st, player_id, answer, now_ms);
    if let PhaseView::Answering { question_index, started_at_ms, deadline_ms } = st.phase {
        if exists|i: int| 0 <= i < st.players.len() && st.players[i].id == player_id {
            let pi = index_of(st.players, player_id)->0;
            assert forall|i: int| 0 <= i < st.players.len() && #[trigger] st.players[i].id == player_id implies i == pi by {
                if i < pi {
                    assert(text_lt(st.players[i].id, st.players[pi].id));
                    lemma_text_lt_irreflexive(player_id);
                } else if pi < i {
                    assert(text_lt(st.players[pi].id, st.players[i].id));
                    lemma_text_lt_irreflexive(player_id);
                }
            }
        }
        if r.1 is Ok {
            let g = st.active_game->0;
            let q = g.questions[question_index as int];
            let sub = SubmissionView {
                player_id,
                question_index,
                answer,
                response_ms: elapsed_ms(now_ms, started_at_ms),
                correct: None,
                points: None,
            };
            let pushed = GameStateView { submissions: st.submissions.push(sub), ..st };
            let lim = (q.time_limit_seconds() * 1000) as nat;
            let m = pushed.submissions.len();
            lemma_scored_shape(st.players, pushed.submissions, question_index, q, lim, m);
            assert forall|k: int| 0 <= k <= st.submissions.len() implies (#[trigger] r.0.submissions[k]).player_id
                == pushed.submissions[k].player_id && r.0.submissions[k].question_index
                == pushed.submissions[k].question_index && r.0.submissions[k].answer
                == pushed.submissions[k].answer && r.0.submissions[k].response_ms
                == pushed.submissions[k].response_ms by {
                if all_answered(pushed, question_index) {
                    lemma_scored_entry(st.players, pushed.submissions, question_index, q, lim, m, k);
                }
            }
            assert(pushed.submissions[st.submissions.len() as int] == sub);
        }
    }
}

proof fn lemma_chosen_count_same(
    a: Seq<SubmissionView>,
    b: Seq<SubmissionView>,
    qi: usize,
    id: Seq<char>,
    n: nat,
)
    requires
        n <= a.len(),
        n <= b.len(),
        forall|k: int| 0 <= k < n ==> (#[trigger] a[k]).question_index == b[k].question_index
            && a[k].answer == b[k].answer,
    ensures
        chosen_count(a, qi, id, n) == chosen_count(b, qi, id, n),
    decreases n,
{
    if n > 0 {
        lemma_chosen_count_same(a, b, qi, id, (n - 1) as nat);
        assert(a[n - 1].question_index == b[n - 1].question_index && a[n - 1].answer == b[n - 1].answer);
    }
}

/// An accepted multiple-choice answer adds one to the count of the option
/// it chose, and leaves every other option's count as it was.
pub proof fn lemma_answer_counts_for_its_option(
    st: GameStateView,
    player_id: Seq<char>,
    option_id: Seq<char>,
    other: Seq<char>,
    now_ms: i64,
)
    requires
        ids_sorted(st.players),
        submit_spec(st, player_id, AnswerView::MultipleChoice { option_id }, now_ms).1 is Ok,
        other != option_id,
    ensures
        ({
            let after = submit_spec(st, player_id, AnswerView::MultipleChoice { option_id }, now_ms).0;
            let qi = st.phase->Answering_question_index;
            &&& chosen_count(after.submissions, qi, option_id, after.submissions.len()) == chosen_count(
                st.submissions,
                qi,
                option_id,
                st.submissions.len(),
            ) + 1
            &&& chosen_count(after.submissions, qi, other, after.submissions.len()) == chosen_count(
                st.submissions,
                qi,
                other,
                st.submissions.len(),
            )
        }),
{
    let answer = AnswerView::MultipleChoice { option_id };
    lemma_submit_outcome(st, player_id, answer, now_ms);
    let after = submit_spec(st, player_id, answer, now_ms).0;
    let qi = st.phase->Answering_question_index;
    let n = st.submissions.len();
    lemma_chosen_count_same(after.submissions, st.submissions, qi, option_id, n);
    lemma_chosen_count_same(after.submissions, st.submissions, qi, other, n);
    assert(after.submissions[n as int].question_index == qi);
}

/// A player's first answer to a question is the one that counts: once it
/// is accepted, any further answer from them is refused and changes nothing.
pub proof fn lemma_first_answer_counts(
    st: GameStateView,
    id: Seq<char>,
    first: AnswerView,
    first_ms: i64,
    second: AnswerView,
    second_ms: i64,
)
    requires
        submit_spec(st, id, first, first_ms).1 is Ok,
    ensures
        ({
            let after = submit_spec(st, id, first, first_ms).0;
            &&& submit_spec(after, id, second, second_ms).1 is Err
            &&& submit_spec(after, id, second, second_ms).0 == after
        }),
{
    let after = submit_spec(st, id, first, first_ms).0;
    if let PhaseView::Answering { question_index, .. } = after.phase {
        let k = st.submissions.len() as int;
        assert(after.submissions[k].player_id == id && after.submissions[k].question_index
            == question_index);
    }
}

/// Answers close early exactly when the accepted answer completes the
/// question: every player allowed to answer it has then answered, and the
/// phase moves on to the reveal; otherwise answering goes on.
pub proof fn lemma_last_answer_reveals(
    st: GameStateView,
    id: Seq<char>,
    answer: AnswerView,
    now_ms: i64,
)
    requires
        submit_spec(st, id, answer, now_ms).1 is Ok,
    ensures
        ({
            let qi = st.phase->Answering_question_index;
            let pushed = GameStateView {
                submissions: st.submissions.push(submission_at(st, id, answer, now_ms)),
                ..st
            };
            &&& st.phase is Answering
            &&& all_answered(pushed, qi) ==> submit_spec(st, id, answer, now_ms).0.phase
                == PhaseView::Reveal { question_index: qi }
            &&& !all_answered(pushed, qi) ==> submit_spec(st, id, answer, now_ms).0.phase == st.phase
        }),
{
}

/// Claiming host control with the recovery key hands control to the new
/// token without resetting the event: everything but the host token (and
/// the revision) is kept, the new token authenticates as host, a different
/// old token no longer does, and a connection still holding it is told that
/// control was transferred.
pub proof fn lemma_claim_transfers_control(
    e: EngineView,
    token: Seq<char>,
    supplied_key: Option<Seq<char>>,
    recovery_key: Seq<char>,
    old_token: Seq<char>,
    command: CommandView,
    now_ms: i64,
)
    requires
        claim_host_spec(e, token_hash_of(token), supplied_key, recovery_key).1 is Ok,
    ensures
        ({
            let after = claim_host_spec(e, token_hash_of(token), supplied_key, recovery_key).0;
            &&& after == e.with_state(
                bump_state(GameStateView { host_token_hash: Some(token_hash_of(token)), ..e.state }),
            )
            &&& authenticate_spec(after.state, "host"@, token) == Some(
                IdentityView::Host(token_hash_of(token)),
            )
            &&& token_hash_of(old_token) != token_hash_of(token) ==> authenticate_spec(
                after.state,
                "host"@,
                old_token,
            ) is None
            &&& (token_hash_of(old_token) != token_hash_of(token) && !(command is Ping))
                ==> execute_spec(after, IdentityView::Host(token_hash_of(old_token)), command, now_ms)
                == (after, Err::<crate::session::CommandOutcome, Seq<char>>(
                "Host control has been transferred to another browser."@,
            ))
        }),
{
}

/// Content that breaks a rule (or cannot be read) is refused on reload and
/// leaves the event, its catalog included, exactly as it was.
pub proof fn lemma_invalid_content_keeps_catalog(
    e: EngineView,
    contents: Result<Seq<GameView>, Seq<char>>,
    media: MediaFactsView,
)
    requires
        loaded(contents, e.catalog.file_path, e.catalog.media_root, media) is Err,
    ensures
        reload_catalog_spec(e, loaded(contents, e.catalog.file_path, e.catalog.media_root, media)).0
            == e,
        reload_catalog_spec(e, loaded(contents, e.catalog.file_path, e.catalog.media_root, media)).1 is Err,
{
}

/// A catalog that loaded replaces the current one exactly between games.
/// During a game the reload is refused and nothing changes. Between games
/// the players, answers and active game stay; a lobby whose game the new
/// catalog still has stays, and one whose game it lacks goes back to
/// selecting a game.
pub proof fn lemma_reload_outcome(e: EngineView, catalog: CatalogView)
    ensures
        reload_catalog_spec(e, Ok(catalog)).1 is Ok <==> e.state.phase.between_games(),
        reload_catalog_spec(e, Ok(catalog)).1 is Err ==> reload_catalog_spec(e, Ok(catalog)).0 == e,
        reload_catalog_spec(e, Ok(catalog)).1 is Ok ==> {
            let after = reload_catalog_spec(e, Ok(catalog)).0;
            &&& after.catalog == catalog
            &&& after.state.players == e.state.players
            &&& after.state.submissions == e.state.submissions
            &&& after.state.active_game == e.state.active_game
            &&& after.connected_players == e.connected_players
            &&& match e.state.phase {
                PhaseView::Lobby { game_id } => if exists|k: int|
                    0 <= k < catalog.games.len() && #[trigger] catalog.games[k].id == game_id {
                    after.state.phase == e.state.phase
                } else {
                    after.state.phase == PhaseView::Selection
                },
                _ => after.state.phase == e.state.phase,
            }
        },
{
    if let PhaseView::Lobby { game_id } = e.state.phase {
        lemma_game_index(catalog.games, game_id);
    }
}

proof fn lemma_token_index_finds(ps: Seq<PlayerView>, h: Seq<char>)
    ensures
        token_index(ps, h) matches Some(i) ==> 0 <= i < ps.len() && ps[i].token_hash == h,
        token_index(ps, h) is None ==> forall|i: int| 0 <= i < ps.len() ==> #[trigger] ps[i].token_hash != h,
    decreases ps.len(),
{
    if ps.len() > 0 {
        lemma_token_index_finds(ps.drop_last(), h);
        assert forall|i: int| 0 <= i < ps.len() - 1 implies ps.drop_last()[i] == ps[i] by {}
    }
}

/// A connection is let in as the host exactly when it asks for the host
/// role with the token whose hash the event holds for its host, and as a
/// player exactly when it asks for the player role with the session token
/// of a player on the roster, as that player; any other role is refused.
pub proof fn lemma_authenticate_outcome(st: GameStateView, role: Seq<char>, token: Seq<char>)
    ensures
        role == "host"@ ==> (authenticate_spec(st, role, token) is Some <==> st.host_token_hash == Some(
            token_hash_of(token),
        )),
        role == "host"@ && authenticate_spec(st, role, token) is Some ==> authenticate_spec(st, role, token)
            == Some(IdentityView::Host(token_hash_of(token))),
        role == "player"@ ==> (authenticate_spec(st, role, token) is Some <==> exists|i: int|
            0 <= i < st.players.len() && #[trigger] st.players[i].token_hash == token_hash_of(token)),
        role == "player"@ && authenticate_spec(st, role, token) is Some ==> exists|i: int|
            0 <= i < st.players.len() && #[trigger] st.players[i].token_hash == token_hash_of(token)
                && authenticate_spec(st, role, token) == Some(IdentityView::Player(st.players[i].id)),
        role != "host"@ && role != "player"@ ==> authenticate_spec(st, role, token) is None,
{
    reveal_strlit("host");
    reveal_strlit("player");
    lemma_token_index_finds(st.players, token_hash_of(token));
    if role == "player"@ {
        assert(("player"@).len() == 6 && ("host"@).len() == 4);
        if let Some(i) = token_index(st.players, token_hash_of(token)) {
            assert(st.players[i].token_hash == token_hash_of(token));
            assert(authenticate_spec(st, role, token) == Some(IdentityView::Player(st.players[i].id)));
        } else {
            assert(authenticate_spec(st, role, token) is None);
        }
    }
}

/// A player is shown how their answer was judged only once answers are
/// revealed, and gets an answer pad only while answers are open.
pub proof fn lemma_nothing_revealed_early(st: GameStateView, i: int, now: i64)
    requires
        0 <= i < st.players.len(),
    ensures
        !reveals(st.phase) ==> player_picture(st, i, now).result is None,
        player_picture(st, i, now).controls is Some ==> st.phase is Answering,
{
}

/// Every question of a catalog that loaded obeys the content rules: a time
/// limit of 5 to 300 seconds, at most 60 seconds of reading time, a prompt,
/// alternative text for its image, 2 to 4 options one of which is the
/// correct one, or at least one accepted answer.
pub proof fn lemma_loaded_questions_follow_rules(
    games: Seq<GameView>,
    file_path: Seq<char>,
    media_root: Seq<char>,
    media: MediaFactsView,
    g: int,
    q: int,
)
    requires
        loaded(Ok(games), file_path, media_root, media) is Ok,
        0 <= g < games.len(),
        0 <= q < games[g].questions.len(),
    ensures
        ({
            let question = games[g].questions[q];
            &&& 5 <= question.time_limit_seconds() <= 300
            &&& question.reading_time_seconds() <= 60
            &&& !is_blank(question.prompt())
            &&& question.image() is Some ==> (question.image_alt() matches Some(alt) && !is_blank(alt))
            &&& question matches QuestionView::MultipleChoice { options, correct_option_id, .. }
                ==> 2 <= options.len() <= ANSWER_STYLE_COUNT && exists|o: int|
                0 <= o < options.len() && options[o].id == correct_option_id
            &&& question matches QuestionView::FreeText { accepted_answers, .. } ==> accepted_answers.len()
                > 0
        }),
{
    lemma_games_ok(games, games.len(), media_root, media, g);
    let gv = games[g];
    lemma_questions_ok(gv.id, gv.questions, gv.questions.len(), media_root, media, q);
}

/// Closing a connection undoes opening it: the host's and every player's
/// count of open connections is back where it was, and the event is untouched.
pub proof fn lemma_close_undoes_open(
    before: EngineView,
    opened: EngineView,
    closed: EngineView,
    identity: IdentityView,
)
    requires
        opened_view(before, opened, identity),
        closed_view(opened, closed, identity),
    ensures
        closed.state == before.state,
        closed.host_connections == before.host_connections,
        forall|id: Seq<char>| #[trigger] connection_count(closed.connected_players, id)
            == connection_count(before.connected_players, id),
{
    assert forall|id: Seq<char>| #[trigger] connection_count(closed.connected_players, id)
        == connection_count(before.connected_players, id) by {
        match identity {
            IdentityView::Host(_) => {},
            IdentityView::Player(p) => {
                if id != p {
                    assert(connection_count(opened.connected_players, id) == connection_count(
                        before.connected_players,
                        id,
                    ));
                }
            },
        }
    }
}

/// Once the current ranks are remembered, the ranking stays the same and
/// the leaderboard shows every player as having kept their place.
pub proof fn lemma_committed_ranks_show_no_change(ps: Seq<PlayerView>)
    requires
        ps.len() <= usize::MAX,
    ensures
        ranking(committed(ps)) == ranking(ps),
        forall|k: int| 0 <= k < ps.len() ==> (#[trigger] leaderboard(committed(ps))[k]).rank_delta == 0,
{
    lemma_ranking_exists(ps);
    let o = ranking(ps);
    let c = committed(ps);
    assert forall|k1: int, k2: int| 0 <= k1 < k2 < o.len() implies ranks_before(
        c[o[k1]],
        #[trigger] o[k1],
        c[o[k2]],
        #[trigger] o[k2],
    ) by {
        assert(ranks_before(ps[o[k1]], o[k1], ps[o[k2]], o[k2]));
    }
    assert(is_ranking(c, o));
    lemma_ranking_exists(c);
    lemma_ranking_unique(c, o, ranking(c));
    assert forall|k: int| 0 <= k < ps.len() implies (#[trigger] leaderboard(c)[k]).rank_delta == 0 by {
        let i = o[k];
        let j = choose|j: int| 0 <= j < o.len() && o[j] == i;
        assert(0 <= k < o.len() && o[k] == i);
        assert(j == k) by {
            if j < k {
                assert(o[j] != o[k]);
            } else if j > k {
                assert(o[k] != o[j]);
            }
        }
        assert(place_of(ps, i) == k);
        assert(0 <= i < ps.len());
        assert(ranking(c)[k] == i);
        assert(c[i].previous_rank == Some((k + 1) as usize));
        assert(leaderboard(c)[k] == ranking_line(c[i], k + 1));
    }
}

/// The clock acts only on deadlines that have passed: before the reading or
/// answering deadline, and in every other phase, a tick changes nothing.
pub proof fn lemma_clock_waits_for_deadlines(st: GameStateView, now_ms: i64)
    requires
        match st.phase {
            PhaseView::Reading { deadline_ms, .. } => now_ms < deadline_ms,
            PhaseView::Answering { deadline_ms, .. } => now_ms < deadline_ms,
            _ => true,
        },
    ensures
        tick_spec(st, now_ms) == (st, Ok::<bool, Seq<char>>(false)),
{
}

/// Answers open exactly at the reading deadline, however late the clock
/// ticks: the answering window is timed from that deadline.
pub proof fn lemma_answers_open_at_the_reading_deadline(st: GameStateView, now_ms: i64)
    requires
        well_formed(st),
        st.phase matches PhaseView::Reading { question_index, deadline_ms } && ({
            let limit = st.active_game->0.questions[question_index as int].time_limit_seconds();
            &&& deadline_fits(deadline_ms, limit)
            &&& deadline_ms <= now_ms < deadline_ms + seconds_ms(limit)
        }),
        st.active_game is Some,
    ensures
        ({
            let qi = st.phase->Reading_question_index;
            let d = st.phase->Reading_deadline_ms;
            let limit = st.active_game->0.questions[qi as int].time_limit_seconds();
            tick_spec(st, now_ms) == (
                bump_state(
                    GameStateView {
                        phase: PhaseView::Answering {
                            question_index: qi,
                            started_at_ms: d,
                            deadline_ms: (d + seconds_ms(limit)) as i64,
                        },
                        ..st
                    },
                ),
                Ok::<bool, Seq<char>>(true),
            )
        }),
{
}


/// The host moving the phase on keeps the state's invariant, whether it
/// succeeds or fails: a phase about a question names one the active game
/// has, a leaderboard between questions has a next question, and remembered
/// ranks do not exceed the number of players.
pub proof fn lemma_advance_keeps_invariant(st: GameStateView, now_ms: i64)
    requires
        well_formed(st),
    ensures
        well_formed(advance_host_spec(st, now_ms).0),
{
    match st.phase {
        PhaseView::Answering { question_index, .. } => {
            if let Some(g) = st.active_game {
                let q = g.questions[question_index as int];
                let lim = (q.time_limit_seconds() * 1000) as nat;
                lemma_scored_shape(st.players, st.submissions, question_index, q, lim, st.submissions.len());
                let ps = scored_through(st.players, st.submissions, question_index, q, lim, st.submissions.len()).0;
                assert forall|i: int| 0 <= i < ps.len() implies match #[trigger] ps[i].previous_rank {
                    Some(r) => r <= ps.len(),
                    None => true,
                } by {
                    assert(ps[i].previous_rank == st.players[i].previous_rank);
                }
            }
        },
        PhaseView::Leaderboard { .. } => {
            let ps = st.players;
            lemma_ranking_exists(ps);
            assert forall|i: int| 0 <= i < ps.len() implies match #[trigger] committed(ps)[i].previous_rank {
                Some(r) => r <= ps.len(),
                None => true,
            } by {
                lemma_place_of(ps, i);
            }
        },
        _ => {},
    }
}


proof fn lemma_scored_entry(
    ps: Seq<PlayerView>,
    subs: Seq<SubmissionView>,
    qi: usize,
    q: QuestionView,
    lim: nat,
    n: nat,
    j: int,
)
    requires
        0 <= j < n <= subs.len(),
    ensures
        scored_through(ps, subs, qi, q, lim, n).1[j] == (if subs[j].question_index == qi {
            SubmissionView {
                correct: Some(verdict(q, subs[j])),
                points: Some(earned(q, subs[j], lim) as i64),
                ..subs[j]
            }
        } else {
            subs[j]
        }),
    decreases n,
{
    lemma_scored_shape(ps, subs, qi, q, lim, (n - 1) as nat);
    if j < n - 1 {
        lemma_scored_entry(ps, subs, qi, q, lim, (n - 1) as nat, j);
    }
}

/// Scoring a question records each answer's verdict and points: a correct
/// answer earns 500 to 1000 points (twice that on a double-points question),
/// the most when given at once and the least at the time limit or later,
/// and never fewer than a slower correct answer to the same question; a
/// wrong answer earns 0.
pub proof fn lemma_scored_answers(st: GameStateView, qi: usize, j: int, k: int)
    requires
        st.active_game matches Some(g) && qi < g.questions.len() && g.questions[qi as int].time_limit_seconds() > 0,
        0 <= j < st.submissions.len(),
        0 <= k < st.submissions.len(),
        st.submissions[j].question_index == qi,
        st.submissions[k].question_index == qi,
    ensures
        ({
            let q = st.active_game->0.questions[qi as int];
            let m: int = if q.double_points() { 2 } else { 1 };
            let lim = q.time_limit_seconds() * 1000;
            let after = finished(st, qi)->Ok_0.submissions;
            let sj = st.submissions[j];
            let sk = st.submissions[k];
            &&& finished(st, qi) is Ok
            &&& after[j].correct == Some(verdict(q, sj))
            &&& !verdict(q, sj) ==> after[j].points == Some(0i64)
            &&& verdict(q, sj) ==> (after[j].points matches Some(p) && 500 * m <= p <= 1000 * m
                && (sj.response_ms == 0 ==> p == 1000 * m) && (sj.response_ms >= lim ==> p == 500
                * m))
            &&& (verdict(q, sj) && verdict(q, sk) && sj.response_ms <= sk.response_ms) ==> (
            after[j].points->0 >= after[k].points->0)
        }),
{
    let g = st.active_game->0;
    let q = g.questions[qi as int];
    let lim = (q.time_limit_seconds() * 1000) as nat;
    let n = st.submissions.len();
    lemma_scored_entry(st.players, st.submissions, qi, q, lim, n, j);
    lemma_scored_entry(st.players, st.submissions, qi, q, lim, n, k);
    lemma_speed_points_range(st.submissions[j].response_ms as nat, lim);
    lemma_speed_points_range(st.submissions[k].response_ms as nat, lim);
    if st.submissions[j].response_ms <= st.submissions[k].response_ms {
        lemma_speed_points_monotone(
            st.submissions[j].response_ms as nat,
            st.submissions[k].response_ms as nat,
            lim,
        );
    }
}

/// Closing the answers to a question, by the host or by the clock once the
/// answering deadline has passed, reveals the question and leaves the
/// answers scored: each records its verdict; a correct one earns 500 to
/// 1000 points (twice that on a double-points question), the most when
/// given at once and the least at the time limit or later, and never fewer
/// than a slower correct answer; a wrong one earns 0. The clock, once the
/// deadline has passed, leaves the same state as the host.
pub proof fn lemma_closing_answers_scores_them(st: GameStateView, now_ms: i64, qi: usize, j: int, k: int)
    requires
        st.phase matches PhaseView::Answering { question_index, .. } && question_index == qi,
        st.active_game matches Some(g) && qi < g.questions.len() && g.questions[qi as int].time_limit_seconds() > 0,
        0 <= j < st.submissions.len(),
        0 <= k < st.submissions.len(),
        st.submissions[j].question_index == qi,
        st.submissions[k].question_index == qi,
    ensures
        ({
            let q = st.active_game->0.questions[qi as int];
            let m: int = if q.double_points() { 2 } else { 1 };
            let lim = q.time_limit_seconds() * 1000;
            let host = advance_host_spec(st, now_ms);
            let after = host.0.submissions;
            let sj = st.submissions[j];
            let sk = st.submissions[k];
            &&& host.1 is Ok
            &&& host.0.phase == (PhaseView::Reveal { question_index: qi })
            &&& (st.phase matches PhaseView::Answering { deadline_ms, .. } && now_ms >= deadline_ms)
                ==> tick_spec(st, now_ms) == (host.0, Ok::<bool, Seq<char>>(true))
            &&& after[j].correct == Some(verdict(q, sj))
            &&& !verdict(q, sj) ==> after[j].points == Some(0i64)
            &&& verdict(q, sj) ==> (after[j].points matches Some(p) && 500 * m <= p <= 1000 * m
                && (sj.response_ms == 0 ==> p == 1000 * m) && (sj.response_ms >= lim ==> p == 500
                * m))
            &&& (verdict(q, sj) && verdict(q, sk) && sj.response_ms <= sk.response_ms) ==> (
            after[j].points->0 >= after[k].points->0)
        }),
{
    lemma_scored_answers(st, qi, j, k);
}

/// Selecting a game succeeds exactly between games and when the catalog
/// has a game with that identifier. It then opens that game's lobby with no
/// active game and no answers, and keeps every player (identifier, name,
/// session and join order) while clearing what the previous game gave them:
/// score, correct answers, time on correct answers, remembered rank, and
/// the first question they may answer. A refused selection changes nothing.
pub proof fn lemma_selecting_a_game_clears_results(e: EngineView, game_id: Seq<char>)
    ensures
        ({
            let after = select_game_spec(e, game_id).0;
            let r = select_game_spec(e, game_id).1;
            let before = e.state.players;
            let now = after.state.players;
            &&& r is Ok <==> (e.state.phase.between_games() && exists|k: int|
                0 <= k < e.catalog.games.len() && #[trigger] e.catalog.games[k].id == game_id)
            &&& r is Err ==> after == e
            &&& r is Ok ==> {
                &&& after.state.phase == (PhaseView::Lobby { game_id })
                &&& after.state.active_game is None
                &&& after.state.submissions.len() == 0
                &&& after.catalog == e.catalog
                &&& now.len() == before.len()
                &&& forall|i: int|
                    0 <= i < now.len() ==> {
                        &&& #[trigger] now[i].score == 0
                        &&& now[i].correct_count == 0
                        &&& now[i].correct_response_ms == 0
                        &&& now[i].previous_rank is None
                        &&& now[i].eligible_from_question == 0
                        &&& now[i].id == before[i].id
                        &&& now[i].username == before[i].username
                        &&& now[i].token_hash == before[i].token_hash
                        &&& now[i].joined_order == before[i].joined_order
                    }
            }
        }),
{
    lemma_game_index(e.catalog.games, game_id);
}

/// The leaderboard puts a higher score first; on equal scores, more correct
/// answers; then less total time spent on correct answers; then the earlier
/// joiner; then the earlier roster position. Each player's line stands at
/// the player's place and carries the player's identifier, name and score.
pub proof fn lemma_leaderboard_order(ps: Seq<PlayerView>, i: int, j: int)
    requires
        ps.len() < usize::MAX,
        0 <= i < ps.len(),
        0 <= j < ps.len(),
        i != j,
    ensures
        0 <= place_of(ps, i) < ps.len(),
        leaderboard(ps)[place_of(ps, i)].id == ps[i].id,
        leaderboard(ps)[place_of(ps, i)].username == ps[i].username,
        leaderboard(ps)[place_of(ps, i)].score == ps[i].score,
        leaderboard(ps)[place_of(ps, i)].rank == place_of(ps, i) + 1,
        ps[i].score > ps[j].score ==> place_of(ps, i) < place_of(ps, j),
        ps[i].score == ps[j].score && ps[i].correct_count > ps[j].correct_count ==> place_of(ps, i)
            < place_of(ps, j),
        ps[i].score == ps[j].score && ps[i].correct_count == ps[j].correct_count
            && ps[i].correct_response_ms < ps[j].correct_response_ms ==> place_of(ps, i) < place_of(
            ps,
            j,
        ),
        ps[i].score == ps[j].score && ps[i].correct_count == ps[j].correct_count
            && ps[i].correct_response_ms == ps[j].correct_response_ms && ps[i].joined_order
            < ps[j].joined_order ==> place_of(ps, i) < place_of(ps, j),
        ps[i].score == ps[j].score && ps[i].correct_count == ps[j].correct_count
            && ps[i].correct_response_ms == ps[j].correct_response_ms && ps[i].joined_order
            == ps[j].joined_order && i < j ==> place_of(ps, i) < place_of(ps, j),
{
    lemma_ranking_exists(ps);
    lemma_place_of(ps, i);
    lemma_place_of(ps, j);
    let o = ranking(ps);
    let pi = place_of(ps, i);
    let pj = place_of(ps, j);
    if pj < pi {
        assert(ranks_before(ps[o[pj]], o[pj], ps[o[pi]], o[pi]));
    }
}

/// The host's roster has a line for every player, and a line shows its
/// player connected exactly when the player has at least one open
/// connection; the host is shown connected exactly when a host screen is
/// open.
pub proof fn lemma_roster_shows_connections(e: EngineView, now: i64, k: int)
    requires
        0 <= k < e.state.players.len(),
    ensures
        host_picture(e, now).players.len() == e.state.players.len(),
        host_picture(e, now).players[k].connected <==> connection_count(
            e.connected_players,
            host_picture(e, now).players[k].id,
        ) >= 1,
        host_picture(e, now).host_connected <==> e.host_connections >= 1,
{
}

/// Opening a player's connection shows that player connected on the host's
/// roster, even when it is the player's only connection; closing a player's
/// only connection shows the player disconnected.
pub proof fn lemma_open_connection_shows_connected(
    before: EngineView,
    after: EngineView,
    id: Seq<char>,
    now: i64,
    k: int,
)
    requires
        0 <= k < after.state.players.len(),
        host_picture(after, now).players[k].id == id,
    ensures
        opened_view(before, after, IdentityView::Player(id)) ==> host_picture(after, now).players[k].connected,
        closed_view(before, after, IdentityView::Player(id)) && connection_count(before.connected_players, id) <= 1
            ==> !host_picture(after, now).players[k].connected,
{
}

/// Starting succeeds exactly in the lobby, with at least one player, while
/// the catalog still has the lobby's game. It then makes that game (the
/// first with its identifier) the active one and opens its first question
/// for reading, until `now_ms` plus the question's reading time; the players
/// and answers are as they were. A refused start changes nothing.
pub proof fn lemma_start_game_outcome(e: EngineView, now_ms: i64, game_id: Seq<char>, k: int)
    requires
        e.state.phase == (PhaseView::Lobby { game_id }),
        0 <= k < e.catalog.games.len(),
        e.catalog.games[k].id == game_id,
        forall|j: int| 0 <= j < k ==> e.catalog.games[j].id != game_id,
    ensures
        start_game_spec(e, now_ms).1 is Ok <==> e.state.players.len() > 0,
        start_game_spec(e, now_ms).1 is Err ==> start_game_spec(e, now_ms).0 == e,
        start_game_spec(e, now_ms).1 is Ok ==> {
            let after = start_game_spec(e, now_ms).0;
            let g = e.catalog.games[k];
            let t = g.questions[0].reading_time_seconds();
            &&& after.state.active_game == Some(g)
            &&& after.state.phase matches PhaseView::Reading { question_index, deadline_ms }
                && question_index == 0 && (t <= i64::MAX ==> deadline_ms == (now_ms + t * 1000) as i64)
            &&& after.state.players == e.state.players
            &&& after.state.submissions == e.state.submissions
            &&& after.catalog == e.catalog
        },
{
    lemma_game_index(e.catalog.games, game_id);
    let i = crate::content::game_index(e.catalog.games, game_id)->0;
    assert(i == k) by {
        if i < k {
            assert(e.catalog.games[i].id != game_id);
        } else if k < i {
            assert(e.catalog.games[k].id != game_id);
        }
    }
}

/// Outside the lobby, or when the lobby's game has left the catalog,
/// starting is refused and changes nothing.
pub proof fn lemma_start_game_needs_lobby_game(e: EngineView, now_ms: i64)
    requires
        !(e.state.phase is Lobby) || (e.state.phase matches PhaseView::Lobby { game_id } && forall|j: int|
            0 <= j < e.catalog.games.len() ==> #[trigger] e.catalog.games[j].id != game_id),
    ensures
        start_game_spec(e, now_ms).1 is Err,
        start_game_spec(e, now_ms).0 == e,
{
    if let PhaseView::Lobby { game_id } = e.state.phase {
        lemma_game_index(e.catalog.games, game_id);
    }
}

/// The host moves the phase on: reading opens answers now, until now plus
/// the question's time limit; the reveal goes to the leaderboard, or to the
/// final leaderboard after the last question; the leaderboard opens the next
/// question for reading, until now plus its reading time, and remembers
/// each player's place (1 for first) as their previous rank. Answers and,
/// but for remembered ranks, players are left as they were. From selection,
/// the lobby or the final leaderboard there is nothing to advance and
/// nothing changes.
pub proof fn lemma_host_moves_phase_on(st: GameStateView, now_ms: i64)
    requires
        st.active_game is Some,
        st.phase matches PhaseView::Leaderboard { question_index } ==> question_index < usize::MAX,
    ensures
        st.phase matches PhaseView::Reading { question_index, .. } ==> {
            let r = advance_host_spec(st, now_ms);
            let t = st.active_game->0.questions[question_index as int].time_limit_seconds();
            &&& r.1 is Ok
            &&& r.0.phase matches PhaseView::Answering { question_index: q, started_at_ms, deadline_ms }
                && q == question_index && started_at_ms == now_ms && (t <= i64::MAX ==> deadline_ms
                == (now_ms + t * 1000) as i64)
            &&& r.0.players == st.players
            &&& r.0.submissions == st.submissions
        },
        st.phase matches PhaseView::Reveal { question_index } ==> {
            let r = advance_host_spec(st, now_ms);
            &&& r.1 is Ok
            &&& r.0.phase == (if question_index + 1 == st.active_game->0.questions.len() {
                PhaseView::FinalLeaderboard
            } else {
                PhaseView::Leaderboard { question_index }
            })
            &&& r.0.players == st.players
            &&& r.0.submissions == st.submissions
        },
        st.phase matches PhaseView::Leaderboard { question_index } ==> {
            let r = advance_host_spec(st, now_ms);
            let t = st.active_game->0.questions[question_index + 1].reading_time_seconds();
            &&& r.1 is Ok
            &&& r.0.phase matches PhaseView::Reading { question_index: q, deadline_ms } && q
                == question_index + 1 && (t <= i64::MAX ==> deadline_ms == (now_ms + t * 1000) as i64)
            &&& r.0.submissions == st.submissions
            &&& r.0.players.len() == st.players.len()
            &&& forall|i: int|
                0 <= i < st.players.len() ==> {
                    &&& (#[trigger] r.0.players[i]).previous_rank == Some(
                        (place_of(st.players, i) + 1) as usize,
                    )
                    &&& r.0.players[i].id == st.players[i].id
                    &&& r.0.players[i].score == st.players[i].score
                    &&& r.0.players[i].correct_count == st.players[i].correct_count
                    &&& r.0.players[i].correct_response_ms == st.players[i].correct_response_ms
                }
        },
        (st.phase is Selection || st.phase is Lobby || st.phase is FinalLeaderboard) ==> (
        advance_host_spec(st, now_ms).1 is Err && advance_host_spec(st, now_ms).0 == st),
{
}

/// Identifiers are distinct on a roster kept in identifier order.
proof fn lemma_ids_distinct(ps: Seq<PlayerView>, i: int, j: int)
    requires
        ids_sorted(ps),
        0 <= i < ps.len(),
        0 <= j < ps.len(),
        i != j,
    ensures
        ps[i].id != ps[j].id,
{
    lemma_text_lt_irreflexive(ps[i].id);
    if i < j {
        assert(text_lt(ps[i].id, ps[j].id));
    } else {
        assert(text_lt(ps[j].id, ps[i].id));
    }
}

/// At most one of the answers to question `qi` comes from each player.
pub open spec fn one_answer_each(subs: Seq<SubmissionView>, qi: usize) -> bool {
    forall|k1: int, k2: int|
        0 <= k1 < k2 < subs.len() && (#[trigger] subs[k1]).question_index == qi
            && (#[trigger] subs[k2]).question_index == qi ==> subs[k1].player_id != subs[k2].player_id
}

proof fn lemma_credit_prefix(
    ps: Seq<PlayerView>,
    subs: Seq<SubmissionView>,
    qi: usize,
    q: QuestionView,
    lim: nat,
    n: nat,
    i: int,
)
    requires
        n <= subs.len(),
        ids_sorted(ps),
        0 <= i < ps.len(),
        one_answer_each(subs, qi),
        credits_fit(ps, subs, qi, q, lim, n),
    ensures
        forall|k: int|
            0 <= k < n && (#[trigger] subs[k]).question_index == qi && subs[k].player_id == ps[i].id
                ==> {
                let r = scored_through(ps, subs, qi, q, lim, n).0[i];
                &&& r.score == ps[i].score + earned(q, subs[k], lim)
                &&& r.correct_count == ps[i].correct_count + (if verdict(q, subs[k]) { 1int } else { 0 })
                &&& r.correct_response_ms == ps[i].correct_response_ms + (if verdict(q, subs[k]) {
                    subs[k].response_ms as int
                } else {
                    0
                })
                &&& r.id == ps[i].id && r.username == ps[i].username
            },
        (forall|k: int|
            0 <= k < n && (#[trigger] subs[k]).question_index == qi ==> subs[k].player_id != ps[i].id)
            ==> scored_through(ps, subs, qi, q, lim, n).0[i] == ps[i],
    decreases n,
{
    if n > 0 {
        lemma_credit_prefix(ps, subs, qi, q, lim, (n - 1) as nat, i);
        lemma_scored_shape(ps, subs, qi, q, lim, (n - 1) as nat);
        let prev = scored_through(ps, subs, qi, q, lim, (n - 1) as nat).0;
        let s = subs[n - 1];
        if s.question_index == qi {
            let pts = earned(q, s, lim);
            let c = verdict(q, s);
            if s.player_id == ps[i].id {
                assert(forall|k: int|
                    0 <= k < n - 1 && (#[trigger] subs[k]).question_index == qi ==> subs[k].player_id
                        != ps[i].id);
                assert(prev[i] == ps[i]);
                assert(prev[i].id == s.player_id);
                assert(index_of(prev, s.player_id) == Some(i)) by {
                    assert forall|j: int| 0 <= j < prev.len() && prev[j].id == s.player_id implies j == i by {
                        if j != i {
                            lemma_ids_distinct(ps, i, j);
                            assert(prev[j].id == ps[j].id);
                        }
                    }
                }
            } else {
                if let Some(j) = index_of(prev, s.player_id) {
                    assert(prev[j].id == s.player_id);
                    assert(j != i);
                }
            }
        }
    }
}

/// Scoring a question credits each player with their own answer to it and
/// nothing else: their score grows by the points recorded on that answer,
/// and when it is correct they gain one correct answer and its response
/// time; a player who did not answer keeps their standing.
pub proof fn lemma_scoring_credits_each_player(st: GameStateView, qi: usize, i: int, k: int)
    requires
        st.active_game matches Some(g) && qi < g.questions.len(),
        scoring_fits(st, qi),
        ids_sorted(st.players),
        one_answer_each(st.submissions, qi),
        0 <= i < st.players.len(),
    ensures
        ({
            let after = finished(st, qi)->Ok_0;
            let p = st.players[i];
            &&& finished(st, qi) is Ok
            &&& after.players.len() == st.players.len()
            &&& (0 <= k < st.submissions.len() && st.submissions[k].question_index == qi
                && st.submissions[k].player_id == p.id) ==> {
                let a = after.submissions[k];
                &&& a.points matches Some(pts) && after.players[i].score == p.score + pts
                &&& after.players[i].correct_count == p.correct_count + (if a.correct == Some(true) {
                    1int
                } else {
                    0
                })
                &&& after.players[i].correct_response_ms == p.correct_response_ms + (if a.correct
                    == Some(true) {
                    a.response_ms as int
                } else {
                    0
                })
                &&& a.response_ms == st.submissions[k].response_ms
            }
            &&& (forall|j: int|
                0 <= j < st.submissions.len() && (#[trigger] st.submissions[j]).question_index == qi
                    ==> st.submissions[j].player_id != p.id) ==> after.players[i] == p
        }),
{
    let g = st.active_game->0;
    let q = g.questions[qi as int];
    let lim = (q.time_limit_seconds() * 1000) as nat;
    let n = st.submissions.len();
    lemma_credit_prefix(st.players, st.submissions, qi, q, lim, n, i);
    lemma_scored_shape(st.players, st.submissions, qi, q, lim, n);
    if 0 <= k < n && st.submissions[k].question_index == qi {
        lemma_scored_entry(st.players, st.submissions, qi, q, lim, n, k);
        if lim > 0 {
            lemma_speed_points_range(st.submissions[k].response_ms as nat, lim);
        }
    }
}

/// A player's screen shows their own score and their place on the
/// leaderboard (1 for first), and, unless they lead, the player just ahead
/// of them, with the points between them, which are never negative.
pub proof fn lemma_player_standing(st: GameStateView, i: int, now: i64)
    requires
        0 <= i < st.players.len(),
        st.players.len() < usize::MAX,
    ensures
        ({
            let ps = st.players;
            let pic = player_picture(st, i, now);
            &&& pic.me.id == ps[i].id
            &&& pic.me.score == ps[i].score
            &&& pic.me.rank == Some((place_of(ps, i) + 1) as usize)
            &&& pic.ahead is None <==> place_of(ps, i) == 0
            &&& pic.ahead matches Some(a) ==> exists|j: int|
                0 <= j < ps.len() && #[trigger] place_of(ps, j) == place_of(ps, i) - 1
                    && a.username == ps[j].username && ps[j].score >= ps[i].score && (in_i64(
                    ps[j].score - ps[i].score,
                ) ==> a.gap == ps[j].score - ps[i].score)
        }),
{
    let ps = st.players;
    lemma_ranking_exists(ps);
    lemma_place_of(ps, i);
    let k = place_of(ps, i);
    if k > 0 {
        let o = ranking(ps);
        let j = o[k - 1];
        assert(0 <= j < ps.len());
        assert(o.contains(j));
        lemma_place_of(ps, j);
        assert(place_of(ps, j) == k - 1) by {
            let pj = place_of(ps, j);
            if pj != k - 1 {
                assert(o[pj] == j && o[k - 1] == j);
            }
        }
        assert(ranks_before(ps[o[k - 1]], o[k - 1], ps[o[k]], o[k]));
    }
}

/// A wrong answer adds nothing to its player: crediting it leaves the
/// roster as it was.
pub proof fn lemma_wrong_answer_credits_nothing(ps: Seq<PlayerView>, id: Seq<char>, response_ms: u64)
    ensures
        credited(ps, id, 0, false, response_ms) == ps,
{
    if let Some(i) = index_of(ps, id) {
        assert(credited(ps, id, 0, false, response_ms) =~= ps);
    }
}

} // verus!
