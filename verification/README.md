# kb — a repository knowledge base, verified

`kb` builds and checks a deterministic, typed knowledge base for a git
repository: a generated index under `kb/gen/` (tree, symbols, dependency
edges), thin human-written overlays (module cards, facts, tag and obligation
configs), session capsules, and the queries that read them (plan, pack,
describe, list).

## Layout

- `src/` — the library, written in Verus. Every function carries a contract
  over mathematical views (`Seq`, `Map`, spec functions), and Verus proves the
  code against it. I/O never happens here: functions take what was read
  (file contents, git output, records parsed from JSON) as plain values and
  return what is to be written. Where the logic itself needs an outside
  crate (SHA-256, the TOML and JSON parsers that lint checks texts with), it
  calls it through a small trusted wrapper whose contract says what it
  returns.
  - `text`, `order`, `sorting`, `json`, `error` — characters, sorting by
    key (with duplicates removed, or stably), sorting by a caller's
    comparison, a JSON value model, the error type.
  - `repo` — repository paths, path prefixes, diff sources, changed paths.
  - `index` — the generated tree, symbols (ids hashed with SHA-256) and
    dependency edges, and the staleness check of `kb/gen/`.
  - `config`, `overlay`, `facts` — tag and obligation configs, module cards,
    fact records and their upserts.
  - `query` — plan, pack (with budgets), describe, list, sessions.
  - `policy` — obligations and lint.
- `app/` — the command-line program and everything that touches the outside
  world: git, ctags, the file system, clap, and serde's typed reading and
  writing of the library's records. It hands
  plain values to the library and writes back what it returns.
- `tests/` — tests of the library through its public API.

The public proof functions named `law_*` state properties that hold across
calls. Among them:

- a regenerated `kb/gen/` whose committed files equal the regenerated ones
  passes the staleness check, and a file whose committed bytes differ is
  listed as stale;
- lint accepts the regenerated tree (for tracked paths that lint's path rule
  accepts), the regenerated dependency edges, and the regenerated symbols
  (for ctags lines that are 1-based); every path that parsing gives passes
  lint's path rule;
- obligations pass when the diff updates what the plan requires;
- upserts hold the upserted entry and keep every other id;
- finalizing a session twice equals finalizing once with both inputs, and
  again with the same inputs changes nothing;
- parsing a parsed path, or a displayed diff source, gives it back;
- building the symbol records, sorting the dependency edges and describing
  a path each have one outcome for given inputs;
- pack expansion grows with the radius and stays within the index; snippets
  keep to their line budget; each budget step removes exactly one item.
