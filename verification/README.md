# virus_bot

The decision core of a bot that plays Virus, a two-to-four-player territory
game: the search tree, the turn clock and the protocol state machine, with
contracts proved by Verus.

- `src/` is the verified library.
  - `mcts/` is the tree search. `tree` models the serial searcher and `search`
    implements it; `pool` and `parallel` do the same for worker threads on one
    shared tree. `moves`, `budget`, `flow` and `mirror` state laws of whole
    searches: that a budget is spent exactly, where a node's visits come from,
    and that one worker is the serial searcher.
    `rebase` re-roots a tree, `gumbel` schedules the root, `net` checks and
    encodes for the policy net, `action_id` numbers actions and `rng` is the
    seeded bit stream.
  - `proto/` is the client. `machine` models the bot and `bot` implements it;
    `clock` splits a turn's time, `client` decides on frames and backoff,
    `ponder` and `engine` are the seams to a search, `message` and `config` are
    plain data.
  - `game`, `score`, `text` and `time` are the values the rest works on.
- `app/` runs the library: sockets, threads, JSON, the clock and everything in
  floating point. The rules of the game are a trait there.
- `tests/` runs the library on concrete positions and conversations.

Floating-point scores pass through the library as bit patterns, and statistics
that are sums of such scores are kept in `app/`. A handful of calls into the
standard library and one into `uuid` are trusted; each is declared beside its
contract in `src/text.rs`, `src/proto/client.rs` and `src/proto/bot.rs`.
