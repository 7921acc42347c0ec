# metro_map_editor

The model of a metro map editor, verified with Verus: stations placed on a
grid, edges between them, and the lines that run over those edges, together
with the state the editor keeps about what the user has selected, and the
history of maps that can be undone and redone.

- `src/models/`: the map and its parts (`GridNode`, `Station`, `Edge`,
  `Line`, `MetroMap`), the identifier generator, the text form of grid
  nodes, the queries of a line over the map (`route.rs`), what the user holds
  while editing (`selected.rs`) and the check that a map is in shape for
  editing (`check.rs`).
- `src/state/`: the editor state: errors, the cursor, the undo history and
  the `MapState` with the selections, what a press and a release of the
  mouse on a grid node do (`on_mouse_down`, `on_mouse_up`), the key
  commands and the partial map handed to the layout algorithm.
- `app/`: a command-line front end that reads a map saved as JSON, takes a
  station off it or replays a script of canvas events on it, with the serde
  copies of the models and the floating-point canvas geometry.
- `tests/`: tests of the library on concrete maps.
