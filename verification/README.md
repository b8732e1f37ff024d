# lambo

The write path of an agentic memory, with its rules proved in [Verus](https://github.com/verus-lang/verus).

Agents submit writes to a session and are answered at once with a receipt. The writes wait in one
lane for each agent, are applied in the background in the order in which they were submitted, and
leave a durable intent behind, so that no acknowledged write is lost when the process ends. Behind
them stands a store of sessions: interactions, concepts and edges, with leases, fencing tokens,
canonization, and search by words and by vectors.

- `src/` is the library. Every item of it is verified, but for the calls into other crates, which
  stand in `src/boundary.rs` with what is believed of them.
  - `receipt`, `receipts`, `job`, `lanes`, `counters`, `pipeline`: the write queue; `laws` states
    what it promises as a whole, `told` what agents are told.
  - `calibration`, `probe`, `limits`: the measurement of the embedder, and the bounds.
  - `store`: the tables and what every mutation does to them, the queries, the lease, the schema;
    `store::laws` states what holds whatever is written, `store::round_trip` what a load gives
    back of it.
  - `types`, `time`, `calendar`, `text`: the values that the rest is about.
- `tests/` runs the library from outside.
- `app/` is what runs around it: SQLite, the background tasks, serialisation, floating point.
