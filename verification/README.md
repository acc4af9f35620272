# monsters

A small game of monster teams that fight in rounds, written in Verus.

- `src/logic.rs`: a monster's numbers (`Logic`), its line (`shout`), blows and the beat
  on which a monster strikes.
- `src/server.rs`: the online game: ninjas and golems, teams, battles, the board
  (`display`) and the requests a player sends (`process_request`).
- `src/server_laws.rs`: proofs that every online battle between sound teams ends, that
  survivors stay sound, and that a player's fresh team always loses to the enemy squad.
- `src/arena.rs`: the local arena, where ninjas cloak, with its roster (`print`) and the
  answers to the menu (`answer`), and the proof that ninjas there never fall.
- `src/input.rs`: reading a menu choice from a typed line.
- `src/text.rs`: decimal numbers and padded columns (through the `pad` crate).
- `app/`: the three programs (arena, server, client) with their terminal, threads,
  sockets and JSON messages.
