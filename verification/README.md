# zappy_server

The game rules of a Zappy server, verified with Verus: command-line parsing,
the toroidal resource map and its generation, players and their inventories,
the per-player command queue, vision, sound direction, `kick`, eggs, the
evolution ritual and win detection.

- `src/` — the verified library; every public function states its result in
  its contract, and the `law_*` proof functions state the properties that
  hold across operations (tile rules kept by generation and respawn, pick and
  drop conserving objects, rituals consuming exactly their table row, ...).
- `tests/` — executable tests of the library.
- `app/` — the server binary: argument handling and the `mio` event loop that
  accepts clients and sends the welcome line.
