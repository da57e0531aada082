# fyrer

A monorepo task runner: it reads a configuration of packages (or projects)
and their tasks, checks it, resolves the dependency graph between tasks,
orders the requested tasks into levels that can run together, hashes tasks
for the build cache, and tracks the state of a run.

The library under `src/` is written in Verus and verified: every public
function states what it returns in its contract, and the properties that
span functions are stated and proved as the `law_*` proof functions. What
goes through an outside crate (the BLAKE3 digest, glob matching, what std's
`Hash` impls write) is named, not stated.

- `config`, `workspace`, `types`: the configuration formats and their
  validation rules; `paths_to_probe` lists the paths whose existence the
  caller checks on disk for the workspace rules.
- `paths`: joining paths, and whether a relative path climbs out of the
  directory it starts from.
- `env`, `env_parser`, `env_map`: `.env` parsing and the layering of
  environments.
- `task_id`, `tasks`, `graph`, `runner`, `sort`: task ids, the task map,
  the dependency graph with its cycle check and level plan, and the choice
  of tasks from a command-line specifier.
- `hash`: the BLAKE3 content hash of a task over its fields, its
  dependencies' hashes and its input files.
- `cache`: the input files a task's key covers (filtered, sorted, each
  once), the key itself, freshness, output directories and saved-run
  records.
- `kill_process`: the child process ids read from a `ps` listing.
- `scheduler`, `pipeline`, `orchestrator`, `monitor`: the decisions of a
  run (blocked tasks, cache checks, restarts, quitting, the states of
  spawned tasks and the diagnostics reported) as functions from state and
  event to next state and action.
- `error`, `logs`, `global`, `cli`: errors and their texts, diagnostics,
  process ids and shutdown codes, and the command line.

`app/` holds the program around it: argument parsing, reading files,
spawning processes and printing.
