# reels_creator

Builds reel tables for slot games from logs of played rounds: it counts what the logs
show (boards, coins, multipliers, bonus hits, wins by amount) and assembles reel strips
that hold every observed board.

The library in `src/` is verified with Verus; `app/` is the program around it (reading
logs and settings from disk, writing the tables, shares given in floating point).

- `src/json.rs`: a plain model of JSON values and the lookups the counters use.
- `src/logs.rs`: reading logs: the text of a log as one JSON array, its reading by
  serde_json, and the screens of game starts.
- `src/games/`: per-game counters over the logs (hacksaw, octoplay, enjoygaming).
- `src/bng/`: China Festival win binning and checks (`convert.rs`), and the tables of its
  Fugaso settings file (`tallies.rs`, `fugaso.rs`, `bonus_table.rs`); Three Aztec Temples boards, default
  tables, reel strips, the counting of rounds (`spin_record.rs`) and of a whole log into
  a game (`game.rs`).
- `src/netg/jocker_twenty/`: the reel pipeline of Joker Twenty: reading screens
  (`intake.rs`), grouping and multiplying boards, collecting, completing and checking
  strips (`actions.rs`), splitting boards into categories by frequency (`split.rs`) and
  the per-reel build (`pipeline.rs`).
- `src/seqs.rs`, `src/ratio.rs`: counting lemmas and exact rounded division.
- `src/clock.rs`: the clock readings that bound how long strips are collected.

Each public function states its result in its `ensures`; the functions named `law_*`
state properties that hold across calls.
