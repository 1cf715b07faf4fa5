//! Sessions: opaque tokens and their hashes, claiming host control,
//! authenticating a connection, the commands a connection may send, and the
//! count of open connections.
use vstd::prelude::*;
use vstd::utf8::encode_utf8;
use rand::RngCore;
use sha2::{Digest, Sha256};
use subtle::ConstantTimeEq;
use crate::engine::{
    advance_fits, advance_host_spec, bump_state, select_game_spec, set_advertised_url_spec,
    start_fits, start_game_spec, submit_fits, submit_spec, token_index, unit_result, well_formed,
    Engine, EngineView, GameStateView,
};
use crate::model::{AnswerView, SubmittedAnswer};
use crate::players::connection_count;
use crate::text::{hex, hex_string, owned, same_text, trim, trimmed};

verus! {

// ---------------------------------------------------------------------------
// Hashing and randomness (sha2, subtle, rand)
// ---------------------------------------------------------------------------

/// The SHA-256 digest of `data`.
pub uninterp spec fn sha256(data: Seq<u8>) -> Seq<u8>;

/// Trusted: `Sha256::digest`; named `sha256`. A SHA-256 digest is 32 bytes
/// (the hasher's output size is `U32`).
#[verifier::external_body]
fn sha256_digest(data: &[u8]) -> (r: Vec<u8>)
    ensures
        r@ == sha256(data@),
        r@.len() == 32,
{
    Sha256::digest(data).to_vec()
}

/// Trusted: subtle's `ConstantTimeEq::ct_eq` on byte slices, as a `bool`:
/// true exactly when the slices have the same length and the same bytes.
#[verifier::external_body]
fn bytes_equal_ct(a: &[u8], b: &[u8]) -> (r: bool)
    ensures
        r == (a@ == b@),
{
    bool::from(a.ct_eq(b))
}

/// Trusted: `rand::rng().fill_bytes` on `n` zeroed bytes. The bytes are
/// random: only their number is stated.
#[verifier::external_body]
fn random_bytes(n: usize) -> (r: Vec<u8>)
    ensures
        r@.len() == n,
{
    let mut bytes = vec![0u8; n];
    rand::rng().fill_bytes(&mut bytes);
    bytes
}

/// The stored form of a session token: the lower-case hex of the SHA-256
/// of its UTF-8 bytes.
pub open spec fn token_hash_of(token: Seq<char>) -> Seq<char> {
    hex(sha256(encode_utf8(token)), false)
}

/// The hash under which session `token` is stored.
pub fn hash_token(token: &str) -> (r: String)
    ensures
        r@ == token_hash_of(token@),
{
    let digest = sha256_digest(token.as_bytes());
    hex_string(&digest, false)
}

/// Whether two texts are equal, compared through their SHA-256 digests in
/// constant time.
pub fn constant_eq(left: &str, right: &str) -> (r: bool)
    ensures
        r == (sha256(encode_utf8(left@)) == sha256(encode_utf8(right@))),
{
    let l = sha256_digest(left.as_bytes());
    let r = sha256_digest(right.as_bytes());
    bytes_equal_ct(l.as_slice(), r.as_slice())
}

/// A fresh session token: 32 random bytes in lower-case hex.
pub fn random_token() -> (r: String)
    ensures
        exists|bytes: Seq<u8>| bytes.len() == 32 && r@ == hex(bytes, false),
{
    let bytes = random_bytes(32);
    hex_string(&bytes, false)
}

/// A fresh host recovery key: 12 random bytes in upper-case hex.
pub fn recovery_key() -> (r: String)
    ensures
        exists|bytes: Seq<u8>| bytes.len() == 12 && r@ == hex(bytes, true),
{
    let bytes = random_bytes(12);
    hex_string(&bytes, true)
}

// ---------------------------------------------------------------------------
// Who a connection is, and what it may ask
// ---------------------------------------------------------------------------

/// Who an authenticated connection speaks for: the host (by the hash of the
/// host token it used) or a player (by identifier).
#[derive(Debug)]
pub enum ClientIdentity {
    Host(String),
    Player(String),
}

pub enum IdentityView {
    Host(Seq<char>),
    Player(Seq<char>),
}

impl View for ClientIdentity {
    type V = IdentityView;

    open spec fn view(&self) -> IdentityView {
        match self {
            ClientIdentity::Host(h) => IdentityView::Host(h@),
            ClientIdentity::Player(p) => IdentityView::Player(p@),
        }
    }
}

/// A command sent over a connection.
#[derive(Debug)]
pub enum ClientCommand {
    SubmitMultipleChoice { option_id: String },
    SubmitFreeText { text: String },
    HostSelectGame { game_id: String },
    HostStart,
    HostAdvance,
    HostReloadContent,
    HostSetJoinUrl { url: String },
    Ping { client_time_ms: Option<i64> },
}

pub enum CommandView {
    SubmitMultipleChoice { option_id: Seq<char> },
    SubmitFreeText { text: Seq<char> },
    HostSelectGame { game_id: Seq<char> },
    HostStart,
    HostAdvance,
    HostReloadContent,
    HostSetJoinUrl { url: Seq<char> },
    Ping,
}

impl View for ClientCommand {
    type V = CommandView;

    open spec fn view(&self) -> CommandView {
        match self {
            ClientCommand::SubmitMultipleChoice { option_id } => CommandView::SubmitMultipleChoice {
                option_id: option_id@,
            },
            ClientCommand::SubmitFreeText { text } => CommandView::SubmitFreeText { text: text@ },
            ClientCommand::HostSelectGame { game_id } => CommandView::HostSelectGame {
                game_id: game_id@,
            },
            ClientCommand::HostStart => CommandView::HostStart,
            ClientCommand::HostAdvance => CommandView::HostAdvance,
            ClientCommand::HostReloadContent => CommandView::HostReloadContent,
            ClientCommand::HostSetJoinUrl { url } => CommandView::HostSetJoinUrl { url: url@ },
            ClientCommand::Ping { .. } => CommandView::Ping,
        }
    }
}

/// What the caller does after a command succeeded: tell every connection
/// about the current revision, or read the games file again and hand the
/// result to `Engine::reload_catalog`.
#[derive(Debug, PartialEq, Eq)]
pub enum CommandOutcome {
    Broadcast,
    ReloadContent,
}

/// The view of a command's result.
pub open spec fn outcome_result(r: Result<CommandOutcome, String>) -> Result<CommandOutcome, Seq<char>> {
    match r {
        Ok(o) => Ok(o),
        Err(e) => Err(e@),
    }
}

/// The host connection is still the current host.
pub open spec fn host_current(st: GameStateView, token_hash: Seq<char>) -> bool {
    st.host_token_hash == Some(token_hash)
}

/// `identity` sending `command` at `now_ms`.
pub open spec fn execute_spec(
    e: EngineView,
    identity: IdentityView,
    command: CommandView,
    now_ms: i64,
) -> (EngineView, Result<CommandOutcome, Seq<char>>) {
    if command is Ping {
        (e, Ok(CommandOutcome::Broadcast))
    } else if identity matches IdentityView::Host(h) && !host_current(e.state, h) {
        (e, Err("Host control has been transferred to another browser."@))
    } else {
        let r: (EngineView, Result<(), Seq<char>>) = match (identity, command) {
            (IdentityView::Player(id), CommandView::SubmitMultipleChoice { option_id }) => {
                let s = submit_spec(e.state, id, AnswerView::MultipleChoice { option_id }, now_ms);
                (e.with_state(s.0), s.1)
            },
            (IdentityView::Player(id), CommandView::SubmitFreeText { text }) => {
                let s = submit_spec(e.state, id, AnswerView::FreeText { text }, now_ms);
                (e.with_state(s.0), s.1)
            },
            (IdentityView::Host(_), CommandView::HostSelectGame { game_id }) => select_game_spec(
                e,
                game_id,
            ),
            (IdentityView::Host(_), CommandView::HostStart) => start_game_spec(e, now_ms),
            (IdentityView::Host(_), CommandView::HostAdvance) => {
                let s = advance_host_spec(e.state, now_ms);
                (e.with_state(s.0), s.1)
            },
            (IdentityView::Host(_), CommandView::HostReloadContent) => (e, Ok(())),
            (IdentityView::Host(_), CommandView::HostSetJoinUrl { url }) => set_advertised_url_spec(
                e,
                url,
            ),
            _ => (e, Err("This session is not allowed to use that command."@)),
        };
        match r.1 {
            Err(m) => (r.0, Err(m)),
            Ok(()) => (
                r.0,
                Ok(
                    if command is HostReloadContent {
                        CommandOutcome::ReloadContent
                    } else {
                        CommandOutcome::Broadcast
                    },
                ),
            ),
        }
    }
}

/// The command cannot make the engine panic.
pub open spec fn execute_fits(
    e: EngineView,
    identity: IdentityView,
    command: CommandView,
    now_ms: i64,
) -> bool {
    match (identity, command) {
        (IdentityView::Player(id), CommandView::SubmitMultipleChoice { option_id }) => submit_fits(
            e.state,
            id,
            AnswerView::MultipleChoice { option_id },
            now_ms,
        ),
        (IdentityView::Player(id), CommandView::SubmitFreeText { text }) => submit_fits(
            e.state,
            id,
            AnswerView::FreeText { text },
            now_ms,
        ),
        (IdentityView::Host(h), CommandView::HostStart) => host_current(e.state, h) ==> start_fits(
            e,
            now_ms,
        ),
        (IdentityView::Host(h), CommandView::HostAdvance) => host_current(e.state, h)
            ==> advance_fits(e.state, now_ms),
        _ => true,
    }
}

/// The identity a connection gets when it authenticates as `role` with
/// `token`: the host if the token's hash is the host's, the player holding
/// the token if it is a player's, otherwise none.
pub open spec fn authenticate_spec(st: GameStateView, role: Seq<char>, token: Seq<char>) -> Option<IdentityView> {
    let h = token_hash_of(token);
    if role == "host"@ {
        if st.host_token_hash == Some(h) {
            Some(IdentityView::Host(h))
        } else {
            None
        }
    } else if role == "player"@ {
        match token_index(st.players, h) {
            Some(i) => Some(IdentityView::Player(st.players[i].id)),
            None => None,
        }
    } else {
        None
    }
}

/// Claiming host control with a new token whose hash is `token_hash`: the
/// first claim needs nothing; once a host exists, the supplied recovery key
/// (trimmed) must equal the server's.
pub open spec fn claim_host_spec(
    e: EngineView,
    token_hash: Seq<char>,
    supplied_key: Option<Seq<char>>,
    recovery_key: Seq<char>,
) -> (EngineView, Result<(), Seq<char>>) {
    let supplied = match supplied_key {
        Some(k) => k,
        None => seq![],
    };
    if e.state.host_token_hash is Some && sha256(encode_utf8(trim(supplied))) != sha256(
        encode_utf8(recovery_key),
    ) {
        (e, Err("The recovery key is not valid."@))
    } else {
        (
            e.with_state(
                bump_state(GameStateView { host_token_hash: Some(token_hash), ..e.state }),
            ),
            Ok(()),
        )
    }
}

/// The engine after a connection of `identity` opened: one more open
/// connection counted for it, nothing else changed.
pub open spec fn opened_view(before: EngineView, after: EngineView, identity: IdentityView) -> bool {
    &&& after.state == before.state
    &&& after.catalog == before.catalog
    &&& after.join_urls == before.join_urls
    &&& match identity {
        IdentityView::Host(_) => after.host_connections == before.host_connections + 1
            && after.connected_players == before.connected_players,
        IdentityView::Player(id) => after.host_connections == before.host_connections
            && connection_count(after.connected_players, id) == connection_count(
            before.connected_players,
            id,
        ) + 1 && forall|other: Seq<char>|
            other != id ==> #[trigger] connection_count(after.connected_players, other)
                == connection_count(before.connected_players, other),
    }
}

/// The engine after a connection of `identity` closed: one open connection
/// fewer counted for it (none fewer when none was counted), nothing else changed.
pub open spec fn closed_view(before: EngineView, after: EngineView, identity: IdentityView) -> bool {
    &&& after.state == before.state
    &&& after.catalog == before.catalog
    &&& after.join_urls == before.join_urls
    &&& match identity {
        IdentityView::Host(_) => after.host_connections == (if before.host_connections > 0 {
            before.host_connections - 1
        } else {
            0
        }) && after.connected_players == before.connected_players,
        IdentityView::Player(id) => after.host_connections == before.host_connections
            && connection_count(after.connected_players, id) == (if connection_count(
            before.connected_players,
            id,
        ) > 0 {
            connection_count(before.connected_players, id) - 1
        } else {
            0
        }) && forall|other: Seq<char>|
            other != id ==> #[trigger] connection_count(after.connected_players, other)
                == connection_count(before.connected_players, other),
    }
}

/// The identity's view, if there is one.
pub open spec fn identity_option(r: Option<ClientIdentity>) -> Option<IdentityView> {
    match r {
        Some(i) => Some(i@),
        None => None,
    }
}

impl Engine {
    /// The identity for a connection that authenticates as `role` (`"host"`
    /// or `"player"`) with `token`.
    pub fn authenticate(&self, role: &str, token: &str) -> (r: Option<ClientIdentity>)
        ensures
            identity_option(r) == authenticate_spec(self@.state, role@, token@),
    {
        let token_hash = hash_token(token);
        if same_text(role, "host") {
            let current = match &self.state.host_token_hash {
                Some(h) => same_text(h.as_str(), token_hash.as_str()),
                None => false,
            };
            if current {
                Some(ClientIdentity::Host(token_hash))
            } else {
                None
            }
        } else if same_text(role, "player") {
            match self.player_by_token_hash(token_hash.as_str()) {
                Some(p) => Some(ClientIdentity::Player(p.id.clone())),
                None => None,
            }
        } else {
            None
        }
    }

    /// Makes the holder of the token hashed as `token_hash` the host; once a
    /// host exists, only with the server's recovery key.
    pub fn claim_host(
        &mut self,
        token_hash: String,
        supplied_key: Option<String>,
        recovery_key: &str,
    ) -> (r: Result<(), String>)
        ensures
            final(self)@ == claim_host_spec(
                old(self)@,
                token_hash@,
                supplied_key.deep_view(),
                recovery_key@,
            ).0,
            unit_result(r) == claim_host_spec(
                old(self)@,
                token_hash@,
                supplied_key.deep_view(),
                recovery_key@,
            ).1,
    {
        if self.state.host_token_hash.is_some() {
            let supplied = match supplied_key {
                Some(k) => k,
                None => String::new(),
            };
            let key = trimmed(supplied.as_str());
            if !constant_eq(key.as_str(), recovery_key) {
                return Err(owned("The recovery key is not valid."));
            }
        }
        self.state.host_token_hash = Some(token_hash);
        self.bump();
        Ok(())
    }

    /// Carries out `command` from `identity` at `now_ms`.
    pub fn execute_command(
        &mut self,
        identity: &ClientIdentity,
        command: ClientCommand,
        now_ms: i64,
    ) -> (r: Result<CommandOutcome, String>)
        requires
            well_formed(old(self)@.state),
            execute_fits(old(self)@, identity@, command@, now_ms),
        ensures
            final(self)@ == execute_spec(old(self)@, identity@, command@, now_ms).0,
            outcome_result(r) == execute_spec(old(self)@, identity@, command@, now_ms).1,
            well_formed(final(self)@.state),
    {
        match command {
            ClientCommand::Ping { .. } => {
                return Ok(CommandOutcome::Broadcast);
            },
            _ => {},
        }
        let ghost cmd = command@;
        match identity {
            ClientIdentity::Host(h) => {
                let current = match &self.state.host_token_hash {
                    Some(t) => same_text(t.as_str(), h.as_str()),
                    None => false,
                };
                if !current {
                    return Err(owned("Host control has been transferred to another browser."));
                }
            },
            ClientIdentity::Player(_) => {},
        }
        let mut outcome = CommandOutcome::Broadcast;
        let r: Result<(), String> = match identity {
            ClientIdentity::Player(id) => match command {
                ClientCommand::SubmitMultipleChoice { option_id } => self.submit(
                    id.as_str(),
                    SubmittedAnswer::MultipleChoice { option_id },
                    now_ms,
                ),
                ClientCommand::SubmitFreeText { text } => self.submit(
                    id.as_str(),
                    SubmittedAnswer::FreeText { text },
                    now_ms,
                ),
                _ => Err(owned("This session is not allowed to use that command.")),
            },
            ClientIdentity::Host(_) => match command {
                ClientCommand::HostSelectGame { game_id } => self.select_game(game_id.as_str()),
                ClientCommand::HostStart => self.start_game(now_ms),
                ClientCommand::HostAdvance => self.advance_host(now_ms),
                ClientCommand::HostReloadContent => {
                    outcome = CommandOutcome::ReloadContent;
                    Ok(())
                },
                ClientCommand::HostSetJoinUrl { url } => self.set_advertised_url(url),
                _ => Err(owned("This session is not allowed to use that command.")),
            },
        };
        match r {
            Err(e) => Err(e),
            Ok(()) => Ok(outcome),
        }
    }

    /// Records a newly opened connection of `identity`.
    pub fn connection_opened(&mut self, identity: &ClientIdentity)
        requires
            identity matches ClientIdentity::Host(_) ==> old(self)@.host_connections < usize::MAX,
            identity matches ClientIdentity::Player(id) ==> connection_count(
                old(self)@.connected_players,
                id@,
            ) < usize::MAX,
        ensures
            opened_view(old(self)@, final(self)@, identity@),
    {
        match identity {
            ClientIdentity::Host(_) => {
                self.host_connections = self.host_connections + 1;
            },
            ClientIdentity::Player(id) => {
                self.connected_players.opened(id.as_str());
            },
        }
    }

    /// Records a closed connection of `identity`.
    pub fn connection_closed(&mut self, identity: &ClientIdentity)
        ensures
            closed_view(old(self)@, final(self)@, identity@),
    {
        match identity {
            ClientIdentity::Host(_) => {
                if self.host_connections > 0 {
                    self.host_connections = self.host_connections - 1;
                }
            },
            ClientIdentity::Player(id) => {
                self.connected_players.closed(id.as_str());
            },
        }
    }
}

} // verus!
