# octofact

A factory game on a hyperbolic {4,q} tiling: belts, machines, splitters,
storage buildings and power networks placed on the tiles of the hyperbolic
plane, with blueprints that capture parts of a factory to paste elsewhere.

The library under `src/` holds the game's rules and simulation, each
function with a contract proved by Verus:

- `hyperbolic/`: words over the turtle alphabet, the rewrite system that
  names tiles (Knuth–Bendix completion, with the critical pairs it leaves
  resolved, a check that the rules are complete, and the proof that
  complete rules give every group element one normal form), shortlex
  reduction, canonical cell identities and their neighbours, the rule-file
  parser.
- `game/`: items and recipes, the inventory, the world grid of placed
  structures, blueprints (capture, rotation, the file format's checks),
  whether a clipboard may be pasted and the order its structures are
  placed in, key bindings and input state, settings, placement (what a new
  structure connects to, across tile edges too, removing and turning
  structures), and the cells a belt drag fills, within a tile and across
  its edge.
- `sim/`: transport lines of belts, machines and their crafting, ports and
  inserters, splitters, storage buildings and power networks.

Transport lines and belt segments are kept in tables indexed by the
library's own integer ids. A network's power satisfaction is an exact
ratio of integers (production over consumption) rather than a float.

`app/` is the program around the library: command-line arguments, the
settings file, blueprint and save files on disk, and the serde copies of
the library's types that those files use. It runs no game loop, so no
paste is carried out there. `tests/` exercise the library through its
public interface.
