# microstation

A small multiplayer space-station game on a tile grid, with a server and a
client built on bevy.

- `src/` is the verified library: chunk and grid arithmetic, tile occupancy and
  the movement rule, wall neighbour masks and corner pieces, icon smoothing
  (spatial index, dirty queue, smoothing passes), sprite and resource
  decisions, prototypes and the tile registry, the test map, program states,
  and the debug console's line protocol and replies. Every public function
  carries a contract that Verus proves; the laws that span several functions
  are public proof functions beside them.
- `tests/` runs the library on concrete values.
- `app/` is the two programs around the library: bevy plugins and systems,
  networking, input, the menu, file reading, and the floating-point work of
  drawing.
