# opencode_agency

A permission manager for coding agents: category templates (with `$extends`
inheritance) and per-agent agent files resolve to a `permissions.jsonc`
file; the library validates that file against its sources, compares two
such files, answers "may this agent run this command", and writes an audit
report.

The library in `src/` is verified with Verus: each public function states
in its contract what it returns, over sequence models of the
insertion-ordered maps it reads.

- `models` — the data: permission blocks, templates, agent files, results.
- `maps` — the sequence model of `indexmap::IndexMap` and its operations.
- `resolver` — merging parent baselines, applying agent overrides, provenance.
- `template_dag` — the inheritance graph (`petgraph`), cycle detection, ancestor order.
- `validator` — effective baselines, round-trip validation, the printed report.
- `sot_generator` — resolving every agent, laying out the permissions file, checking it parsed back.
- `generator` — deltas against baselines, command groups, agent-file text, the summary table.
- `can` — comment stripping, rule matching, the allow/deny answer.
- `compare`, `inspect`, `loader`, `reporter`, `jsonc_writer`, `config`, `order`, `text` — the other commands and their text.

`app/` is the command line (`clap`): reading and writing files, JSONC and
serde parsing, the binary cache of `can`.  `tests/` runs the library on
concrete values.
