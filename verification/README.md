# parcels

A small package-tracking web service. The library under `src/` holds its
logic, verified with Verus; `app/` is the web server around it (axum routes,
SQLite queries, the USPS HTTP calls, HTML templates).

- `src/datetime.rs` — the Gregorian calendar as spec functions, and the
  `YYYY-MM-DD HH:MM:SS` timestamps the service stores (date of a day number
  after H. Hinnant's algorithm, proved against the calendar; the order of the
  texts follows the order of the times up to year 9999).
- `src/auth.rs` — constant-time password check (via `subtle`), session tokens
  (via `rand`'s `OsRng`), session expiry, the session cookie and its parsing,
  session validity.
- `src/usps.rs` — the USPS records, the OAuth token cache, and what each
  answer of the USPS API means.
- `src/db.rs` — stored records, the database path, and how query answers
  become results.
- `src/web.rs` — form clean-up, redirect targets, URL encoding (and the
  proof that decoding undoes it), configuration
  values.
- `src/text.rs` — digits, white space and trimming, lexicographic order.

`tests/` exercises the library with the outside crates linked.
