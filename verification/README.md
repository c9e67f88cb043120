# runsteps

An interactive, config-driven task runner: a `runsteps.toml` names steps
(shell commands or `just` recipes), and `runsteps` lets you pick which to run,
orders them by their dependencies, asks for confirmations and placeholder
values, runs independent steps in parallel and remembers the last run so that
`runsteps again` can replay it.

The decisions are a library verified with Verus; the program around it does
the terminal, file and process work.

## Layout

- `src/` — the verified library.
  - `config.rs` — the config model, validation, key suggestions for typos,
    parse-error reports.
  - `resolver.rs` — `{{placeholder}}` resolution (`--var` bindings, prompt
    answers, shell quoting), `--var` parsing, orphan prompts.
  - `picker.rs` — group filtering, missing dependencies and where they are
    inserted.
  - `graph.rs` — the dependency graph, cycle reports and the ASCII drawing.
  - `runner.rs` — argument records, profiles, the steps offered, execution
    batches, replaying a recorded run.
  - `executor.rs` — the process a step starts, dry-run lines, messages.
  - `history.rs` — recorded runs, SHA-256 fingerprints, RFC 3339 timestamps.
  - `display.rs`, `schema.rs` — the step listing and the config schema.
  - `text.rs`, `strmap.rs` — strings as character sequences, an ordered
    string-keyed table.
- `tests/` — tests of the library on concrete values.
- `app/` — the `runsteps` program: command line, TOML and JSON, prompts,
  processes and threads, the history file.

Each module states its behaviour in `requires`/`ensures` over spec
functions; the properties that span several calls (what a recorded run
replays, how steps are batched, that prompt answers settle a plan, that
validation accepts exactly the well-formed configs, and more) are public
proof functions whose names start with `law_`.
