# steplock

Stateful quality gates for AI coding agents. A checklist is a Mermaid
`stateDiagram-v2` flow plus a `config.toml` that says which hook events it gates;
an action is blocked until every item on the way to `[*]` has been acknowledged.

## Layout

- `src/` — the library, verified with Verus:
  - `text` — characters, trimming, searching, splitting, decimal numbers;
  - `flow`, `flow_laws` — the Mermaid parser, breadth-first item order, the
    "every state can finish" check, and what holds of every parsed flow;
  - `flow_single_step` — a diagram with a single step always parses;
  - `state`, `config`, `error` — session state, checklist configuration, errors;
  - `gate`, `gate_laws` — one session step (complete, stale or block), the block
    message, what `ack.sh` does to a session, and properties across steps;
  - `scope` — which directory holds a session's state;
  - `catalog` — checklist order, project/global shadowing, and the run over the
    checklists (the first that blocks answers);
  - `cel` — when a `match_input` expression is evaluated and what its result means;
  - `scripts` — `ack.sh` and the generated `preview.sh`;
  - `global_config` — where the global checklist directory is, as a base path and
    the components below it; the platform decides which paths are absolute.
- `app/` — the `steplock` command: reads the hook event, files, environment and
  clock, evaluates CEL expressions, and writes state, scripts and the audit log.
- `tests/` — tests of the library.
