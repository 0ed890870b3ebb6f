# agent-decision-log

A log of the branch decisions an AI agent takes: the options it considered,
the option it chose, why, and (later) what came of it.

- `src/decision.rs`: `Decision`, `DecisionLog` and their operations, with
  contracts over the sequence of decisions, and the laws that relate them.
- `src/id.rs`: decision ids `dec_<hex-time>_<hex-seq>`, with the proof that an
  id determines its time stamp and sequence number.
- `src/jsonl.rs`: JSON Lines framing (one record per line) and splitting
  (blank lines skipped), with the proof that splitting undoes framing.
- `src/external.rs`: the std items the library calls, with their assumed contracts.
- `app/lib.rs`: serde forms of the types, reading/writing JSONL files, and an
  `add` that numbers ids from one counter for the whole process.
