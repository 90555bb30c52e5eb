# mcp-next-query-proposer

Proposes the follow-up queries (MQOs) worth running next in an analytic
session: drill one level deeper, compare over time, or pivot to an adjacent
dimension, as ranked query objects that pass structural validation.

The library under `src/` is verified with Verus:

- `json`: the JSON value model, its mathematical view and its lookups;
- `session`, `model`: what the proposer reads of a session and of a model;
- `validate`: structural validation of a query object;
- `mqo`: the query objects the proposer builds;
- `proposer`: the three strategies, the automatic selection and `propose`;
- `laws`: what holds of every output, whatever the strategy: validity,
  count, ranks, strategy names, kept model and measures, no touched level
  proposed again, nothing for an exhausted session, rationales repeated
  only where a quoted level text holds a quote (for models with distinct
  level names and a last query that lists each dimension once), the drill
  moves, and the operations of compare;
- `types`, `cli`, `text`, `seqs`: output types, command-line choices and
  rendering, decimal text, sequence vocabulary.

`app/main.rs` is the command line: it reads the three JSON files, hands
their values to the library and prints the proposals as JSON or as lines.
