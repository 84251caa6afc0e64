# funkot_player

The verified core of an auto-DJ music player: the playback queue and its
priority rules, durable playlists with non-destructive playback progress,
the planning of user commands (with replay of answered requests), manual
tag editing, embedded-metadata reading, transition flags, the
pause/play envelope and the current-track endpoint's request rules. Every
function under `src/` carries a contract checked by Verus.

- `src/` — the library, one module per concern (`queue`, `playlists`,
  `progress`, `service`, `command`, `tags`, `tag_service`, `metadata`, `probe`, `riff`, `dates`,
  `flags`, `store`, `library`, `http`, `observation`, `transport`, `fade`,
  plus `text` and `order` for the string facts the others rely on).
- `tests/` — ordinary Rust tests of the library.
- `app/` — the program around it: JSON files, file locks, symphonia
  probing, the loopback HTTP server and the feedback archive.
