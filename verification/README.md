# Fractory

The simulation logic of Fractory, a factory game played on a self-similar
triangle fractal, written in Verus: every function in `src/` carries a
contract that Verus proves, and so do the laws stated as proof functions
there (among them how moves are carried out, cancelled and resolved against
each other).

Layout:

- `src/orientation.rs`, `src/tringle.rs`: the six orientations of a triangle
  and the transforms between them, with their group laws.
- `src/tile.rs`, `src/path.rs`, `src/path_model.rs`, `src/path_text.rs`:
  tiles, quads of tiles, and positions in the fractal, modelled as sequences
  of subtiles; positions read from and written as text.
- `src/fractal.rs`, `src/recognizer.rs`, `src/symmetry.rs`: the fractal as a
  library of shared slots, with reads, writes and their laws.
- `src/boring.rs`: a plain fractal of numbered nodes, kept in an `IndexSet`.
- `src/actions.rs`, `src/collide.rs`: moves, how conflicting moves are
  dropped, and how the rest are carried out.
- `src/factory.rs`, `src/planet.rs`, `src/presets.rs`: active tiles, the
  inventory, a tick of the factory, planets, biomes and the XYYY setup.
- `src/edit.rs`: editing the fractal by hand: the edits a click makes, and
  the tile the cursor carries.
- `src/ui.rs`: the parts of the user interface that are plain logic.
- `app/`: a small console program that runs a few ticks and prints the
  fractory.
