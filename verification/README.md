# payments_engine

A payments engine verified with Verus. It reads a CSV of transactions
(`type,client,tx,amount`), applies deposits, withdrawals, disputes, resolves
and chargebacks to client accounts, and writes the resulting balances as CSV.

- `src/domain/` — amounts (fixed point, four decimals), accounts, and the
  ledger with its rules (`apply_spec`) and the proved properties of those rules.
- `src/infrastructure/csv/` — the CSV schema: amount and row parsing, the
  transaction reader, and the account writer; the `csv` crate does the CSV
  tokenizing and encoding.
- `src/application/` — errors and `run`, which feeds a transaction source into
  a ledger and hands the accounts to a sink.
- `src/text.rs` — character-level helpers (whitespace, digits, decimal text).
- `app/main.rs` — the command line: argument parsing, file and stdout I/O.
