# rank_match_server

A ranked matchmaking service. Players join one queue per rank tier (the tier
follows from their score); a matchmaker repeatedly draws the front ten players
of each queue into a match of two teams of five, records the match for each of
its players, and drops recorded matches after five minutes.

- `src/` is the library, verified with Verus:
  - `models.rs`: rank tiers, players, teams, matches and player standings.
  - `clock.rs`: timestamps as seconds and nanoseconds since the Unix epoch,
    and exact elapsed-seconds arithmetic on them.
  - `ids.rs`: random identifiers (version 4 UUIDs as 128-bit values).
  - `match_pool.rs`: the queues, the index of queued players and the recorded
    matches, with the pool's invariant and every operation on it.
  - `matchmaker.rs`: one matchmaking round over all tiers.
  - `handlers.rs`: what the HTTP endpoints compute (join, status, pool state).
  - `laws.rs`: properties that relate several operations.
- `app/` is the server: axum routes, JSON forms of the library's types, the
  timer that runs matchmaking rounds, logging.
- `tests/` exercises the library on concrete values.

Group queueing and a queue timeout are not implemented: there is no group
route, replies promise no removal for waiting too long, and the pool status
reports a queue timeout of 0.
