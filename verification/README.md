# idirfein_server

A personal server: it serves a blog, answers on two message channels, and keeps the folders of its
clients in step with its own.

- `src/` is the library. It decides which files are listed, which requests go to a client, what is
  done about an answer, who is let in, and what a channel replies. All of it is verified with Verus.
  Block signatures, deltas, tokens, JSON and the text of channel messages come from `fast_rsync`,
  `totp-rs`, `serde_json` and `rocket_ws`; the few functions that call them say in their comments
  what is taken for granted.
- `app/` is the program around it: routes, disk and serialisation.
- `tests/` runs the library.

Paths are text with `/` between the parts, as on Unix.
