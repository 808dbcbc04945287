# poker

A poker library whose logic is proved with Verus, and the programs around it.

- `src/` — the verified library: cards and decks, hand ranking, the three games
  (Texas Hold'em, Five Card Draw, Seven Card Stud), the betting table, the line
  protocol of the terminal servers and client, browser sessions, and the text
  helpers they share. Every public function states what it returns or changes in
  its `ensures`; the laws that relate several functions are public proof functions.
- `tests/` — tests of the library on concrete values.
- `app/` — the programs: the browser server (axum, Postgres through bb8), the
  terminal lobby and game servers, and the terminal client. They do the I/O and
  hand plain values to the library.

Run `poker` for the browser server, `poker lobby` for the terminal servers, and
`poker client [lobby address]` for the terminal client. The servers read
`DATABASE_URL` (or `DB_HOST`, `DB_USER`, `DB_NAME`, `DB_PORT`, `DB_PASSWORD`) and
`BIND_ADDR` or `PORT`; the browser page is served from a `web/` directory.
