# cshogi_rust

A shogi engine (TMOQ) whose core is written in Verus and proved against its
contracts: board representation, move generation, the one-move mate finder,
SFEN reading and writing, evaluation, the transposition table, move ordering,
the alpha-beta search (each node's result stated as a pruning cut under its
condition or the fail-soft maximum over the recorded results of its children,
given the readings of the stop flag), the USI command readers and the opening
book.

Layout:

- `src/` – the verified library, one module per part:
  `types`, `bitboard`, `piece`, `hand`, `moves` (squares, bitboards, pieces,
  hands and packed moves); `attacks`, `movegen`, `mate1ply` (attack sets,
  legal moves, mate in one); `position`, `sfen`, `sfen_laws` (positions,
  their SFEN text, and the proof that reading back what was written gives the
  position); `eval_params`, `eval` (evaluation); `tt`, `ordering`, `trace`,
  `search` (table, ordering tables, the record of what a search read and
  found, search); `usi`, `book` (commands and the book);
  `text` (character-level helpers).
- `tests/` – tests of the library on concrete values.
- `app/` – the engine program: the USI loop on standard input and output,
  the search threads and their clock, the book and parameter files, the log,
  and the floating-point time allocation and pruning tables.
