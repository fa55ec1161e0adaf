# cs110l

Verified core of a handful of small systems programs, written in Verus.

- `src/` — the verified library:
  - `word`: word alignment and single-byte patching of a traced process's memory;
  - `address`: hexadecimal/decimal number parsing and breakpoint locations;
  - `breakpoints`: the breakpoint table;
  - `command`: debugger commands and the reading of a prompt line;
  - `session`: the debugger's command loop as a state machine, with its invariant and laws;
  - `text`: whitespace, trimming and splitting;
  - `hangman`: choosing the secret word and playing guesses;
  - `wc`: word, line and letter counts;
  - `parallel`: tagging the inputs of a parallel map and putting the results back in order.
- `app/` — the programs around it: terminal I/O, files, threads, `ptrace`.
- `tests/` — tests of the library.
