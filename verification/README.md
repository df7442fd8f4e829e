# codex_nexus

A collector for the token usage of Codex sessions, and the rules by which it keeps its books.

- `src/` is the verified library: reading session logs, the ledger of turns and its timeline,
  who owns a log, rebuilding and setting history aside, quota steps, weekly estimates, usage
  over days, the protocol between the collector and its clients, and the texts that are shown.
  Every table is a list of rows; clocks, files and answers of other processes are arguments.
- `tests/` runs the library on concrete values.
- `app/` is the program around it: files, SQLite, the Codex process, the local socket, and what
  is computed in doubles.

Inside the library, percentages are integers that order as the doubles do, and credits are exact
multiples of 10^-10. `app/` converts where it reads and stores them as doubles.
