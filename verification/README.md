# brownshock

The rules and map logic of a small stealth game, written in Verus and
proved against their contracts: procedural map generation (BSP split,
room-kind allocation, merging, door cutting, cellular cover), room
detection, subgoal-graph and A* path search, line of sight, quick-time
rounds and the start-up spawn plan.

- `src/` — the verified library, one module per topic (`generate`,
  `bsp`, `grouping`, `doors`, `map_gen`, `room`, `subgoal`, `npc`,
  `chase`, `sight`, `state`, `setup`, `audio`, ...).
- `tests/` — tests of the library on concrete maps and values.
- `app/` — a reduced game runner: window, keyboard, `config.toml`, a
  top-down rendering, player and NPC motion in continuous space and a
  simplified chase. It calls the library for map generation, rooms,
  routing (`chase_route`), the chase's room-level decisions
  (`lost_sight_step`), line of sight and the quick-time rounds. The suspicion ladder,
  the director, the fart quick-time event, vision cones, fog, audio
  playback and the debug panel of the full game are not part of it.
