# blindcoder

A blind, cost- and quality-aware router for agentic coding command-line tools. A session runs under
an alias; which model and provider stand behind it stays hidden, so that it is rated blind. What a
session was worth moves the belief on its model, and the next session goes where value is expected.

## Layout

`src/` is the library. Its functions carry contracts that Verus proves, save for the outside calls
named at the end:

- `text`, `double`, `dates`, `json`, `tables`, `registers`, `named` — the ground: text, the order of
  doubles, calendar dates and hours, JSON documents, reading rows, registers that are refreshed in
  place, values by name.
- `config`, `gates` — the config, the fail-closed privacy gate and the no-ZDR consent chain.
- `rewrite`, `backend`, `proxy` — what leaves for a provider, what comes back masked, what a session
  is charged and tagged with, and the audit trail.
- `alias`, `store`, `pool` — blinded aliases, the append-only tables, seeding and gathering the pool.
- `selector`, `simulate` — pruning and picking, and the decisions of the convergence harness.
- `cli`, `session`, `run`, `stats` — arguments and answers, launching and driving a session, admitting
  the pool and opening a session of it, and the leaderboard.

`app/` is the program around the library: arguments, files, SQLite, sockets, and the floating-point
arithmetic of the selector. `tests/` runs the library.

## What is stated

Contracts say what a function returns, and each error with the inputs it comes on. Where chance or
an outside call decides, they say what holds of every outcome. Properties that span functions are
public proof functions, named `lemma_…`, in the module they are about. Among them:

- A JSON object that leaves under the request-time privacy protocol asks for zero data retention and
  names the resolved model, whatever the client sent. Bodies that are no JSON object are forwarded as
  they came, and the protocols that rest on account settings add nothing of their own to a request.
- A masked body or stream does not hold the model's slug, for an alias that cannot form part of the
  slug when it is put in its place, and, in a stream, a slug without line breaks. A slug that an alias
  could complete is outside this statement.
- The pool is gathered, and a session opened, only from a config that has passed the privacy gate and
  the consent chain; and the chain asks for one requirement at a time.
- Where no two configured providers share a slug and no two models of one share a key, every alias of
  the pool leads to its own model at its own provider's address, which lies within the domain of the
  protocol that the provider declares.
- Nothing that was recorded is lost or edited, what is there once stays there once, whatever speaks of
  a session speaks of one that is there, and a correction replaces what it corrects.
- Seeding twice from the same config adds no event and no alias the second time and leaves the
  providers and the catalog as they are. It adds no price either, where the configured prices are
  numbers, a model that is listed twice at a provider has the same prices each time, and no recorded
  price is later than the first seeding.
- An audit record tells the hour of a request and no finer time.
- A session is stopped once at most.

Calls into `serde_json`, `rand`, `chrono`, `bytes` and the standard library that the proofs rest on
are marked `external_body` or `assume_specification`, and each says what it takes on trust.
