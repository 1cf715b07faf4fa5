# Hoot! server library

Hoot! is a self-hosted quiz game for a room full of phones: a shared host
screen shows the questions and each player answers on their own device. This
crate holds the game's logic, specified and proved with Verus; `app/` is the
server around it (command line, HTTP and WebSocket API, the clock, the file
system and network reads).

## Layout

- `src/model.rs` — games, questions, phases, players and answers, each with a
  mathematical view.
- `src/content.rs` — the rules a games file must obey, and the catalog.
- `src/text.rs`, `src/matching.rs` — text primitives; answer normalisation,
  the edit distance and the typo tolerance for free-text answers.
- `src/scoring.rs` — points for a correct answer, computed with integers
  following each rounding step of the binary64 evaluation of the speed
  formula; the tests compare the two over many inputs.
- `src/players.rs` — the roster in identifier order, and open connections.
- `src/engine.rs` — the event's state and every transition (join, select,
  start, answer, clock, host advance, reload), each stated as a function on
  the state's view; the leaderboard.
- `src/session.rs` — tokens, host control, authentication and commands.
- `src/snapshot.rs` — what the host and each player are shown.
- `src/network.rs` — the join addresses to advertise, and the WSL2 warning.
- `src/guards.rs` — checks that tell a caller whether an operation's
  arithmetic stays in range before it is made.
- `src/laws.rs` — properties that span several operations.

The tests under `tests/` run the library against concrete events.
