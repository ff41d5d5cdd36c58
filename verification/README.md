# party_quiz

Party Quiz for the Braiins Deck: the Deck is the board, phones are the buzzers.
This crate is the game's logic, written in Verus and proved against its
contracts; `app/` is the widget around it on the device.

## Layout

- `src/model.rs`: the game rules. Seats, host succession, joining and
  leaving, the phase machine (lobby, question, reveal, standings, podium),
  time-weighted scoring with streak bonus, standings. Every operation is
  specified over `GameView`, the game as plain values, and keeps the game's
  invariant (`GameView::wf`).
- `src/server.rs`: the phone endpoint. Routing, form decoding, tokens, and the
  JSON snapshot the phones poll, each specified exactly (`handled`,
  `snapshot_text`).
- `src/pack.rs`: the question pack line format, filtering by the params, and
  the seeded Fisher–Yates shuffle.
- `src/board.rs`: what the frame loop decides: the settings and deck a game
  gets from the params, the played-questions and best-ever records the Deck
  keeps, the reveal tally, and the status lines the screens show.
- `src/effects.rs`: which LED and sound cues a frame fires.
- `src/manifest_params.rs`: the widget's manifest params as typed values.
- `src/text.rs`: the `char` view of strings and the few std string
  operations the parsers build on.
- `app/`: the wasm glue: SDK screens, LED and audio playback, the key-value
  store, the HTTP listener, mDNS and the widget lifecycle. It expects the
  phone page, the starter pack and the sounds under `assets/`.

`tests/` runs the library on concrete games, requests and packs.
