# mvis

Heap-profiling core with machine-checked contracts.

- `src/` is the library, verified with Verus:
  - `aggregator` folds allocation events into a flame trie (`tree`, with the
    ghost record in `ledger` and frame interning in `interner`);
  - `flame_chart` lays the trie out on a character grid, navigates it by
    keyboard, colours it and plans what to draw;
  - `hex_dump` formats raw memory;
  - `ci` parses the CI monitor's command line and decides, sample by sample,
    whether a watched process breaks a memory limit;
  - `export` pairs regions with labels and builds the JUnit report of the CI
    checks;
  - `text` holds the character-level helpers (hex, search, decimal parsing).
- `app/` is the I/O around it: the CI monitor's process loop, the aggregator's
  channel loop, JSON/CSV/JUnit files and the ratatui widget.
- `tests/` runs the library on concrete values.
