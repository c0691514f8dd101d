# llama_switcher

Switching between llama.cpp server startup scripts, one server at a time,
controlled through a local bearer-token API, with a benchmark runner that
grades model replies.

The library (`src/`) holds the logic, verified by Verus against its
contracts. Where it calls `std`'s Unicode tables, `serde_json`, `ipnet`,
`chrono` or `rand`, the call sits in a small trusted function whose
contract states what that crate's documentation or source promises:

- `script_scanner`, `alias_formatter`, `order` — turning `start - {model} -
  {feature}.cmd` files into sorted, de-duplicated profiles with aliases and ids.
- `process_manager`, `process_tree`, `server_control` — reading `netstat`,
  `nvidia-smi` and process listings, choosing what to kill and in which order,
  the decisions of the start/stop/restart loops, usage and VRAM summaries.
- `local_api`, `security`, `trust` — routing, authorizing and answering
  agent requests; the security gateway's verdicts, automatic bans and
  trusted networks (parsed by `ipnet`).
- `settings`, `state`, `logging`, `tray`, `widget`, `hermes_install`,
  `throughput` — settings defaults, run logs, tray texts, the widget's view,
  the agent skill's `.env`, locating throughput numbers in llama.cpp output.
- `benchmark`, `benchmark_catalog`, `benchmark_run`, `benchmark_report`,
  `grading` — run plans, output naming, code extraction, submission checks,
  judging what the Boa engine gave back for each test, the runner's step
  machine and decisions, and
  the HTML report's data embedding.
- `text` — the string operations the rest is written with, each specified.

`app/` is the program around it: the service loop, HTTP servers and
clients, files, child processes (including the isolated grader, which runs
the Boa engine, since a script can keep it from returning), the
bundled benchmark cases and the floating-point statistics.

`tests/` exercise the library from outside.
