# solana-shred-tx-benchmark

Compares when two Jito ShredStream proxies deliver the same Solana transactions: how often each of
them was first, and by how much.

    solana-shred-tx-benchmark \
      --source-1-url http://127.0.0.1:19091 --source-1-name NAME \
      --source-2-url http://127.0.0.1:19092 --source-2-name NAME [--duration SECONDS]

## Layout

- `src/` is the library, verified with Verus: the arguments (`config`), how the reports of a source
  come about (`receive`, `entries`, `event`), what is done with them (`collect`), the statistics
  (`stats`, `observations`, `sort`), and how all of it is shown (`report`, `table`, `names`,
  `progress`, `numeral`, `text`). Points in time are counted in nanoseconds (`clock`).
- `app/` is the program around it: it connects to the proxies, waits, writes to the terminal, and
  rounds the figures of the results to the digits that are shown.
- `tests/` runs the library on chosen values.

Two things are taken on trust: what `String::push` does, and that `bincode::deserialize` reads the
same entries from the same bytes every time.
