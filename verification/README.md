# chaff

Safe, smart dev-disk reclaimer: finds regenerable developer artifacts
(`node_modules`, `target`, `.venv`, tool caches, ...) and reclaims their space
without touching anything that cannot be regenerated.

## Layout

- `src/` is the library, written in Verus. Every decision the tool makes is
  there with a contract and a proof:
  - `rules` — the artifact table and directory matching (built-ins first,
    marker files gate ambiguous names, set-once custom rules);
  - `scan` — what the directory walk does with each entry;
  - `caches` — the global package-manager caches and which location counts;
  - `clean` — the safety and filter checks, ignore protection, run plans,
    tallies and messages;
  - `config` — config settings, custom rules, ignore files and glob
    expansion, compiled with `globset`;
  - `cli` — flag decisions, `--min-size` / `--older-than`, listing order;
  - `report` — sizes (via `humansize`), ages, totals, breakdowns, bars,
    table and chart text, and the JSON report's values;
  - `tui` — the picker's state machine: filter, sort, cursor, selection,
    and what each key does;
  - `util`, `order`, `text`, `model` — parsing, stable sorting by keys,
    character helpers and the artifact record.
  Public `law_*` proof functions state the properties that hold across
  calls.
- `app/` is the `chaff` program around the library: argument parsing, the
  filesystem walk and sizes, config and ignore files, git, deletion to the
  trash, printing, JSON output and the terminal picker.
- `tests/` exercises the library on concrete values.
