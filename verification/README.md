# korucha fund

A dashboard for a small personal stock portfolio held in yen and dollars:
a ledger of purchases and sales, daily valuations, share cards with card
images, and an administration page behind Basic authentication.

- `src/` is the library, verified with Verus: the rules a transaction must
  meet and the form it is stored in, the chronological walk over the ledger,
  duplicate-free imports, the daily quota of market-data requests, the next
  run of the daily batch, the settings, the security rules of the web front,
  and the text that pages show.
- `app/` is the server around it: HTTP handlers, the database, the
  market-data client, the scheduler, and the portfolio arithmetic, which is
  floating point.
- `tests/` runs the library on concrete values.
