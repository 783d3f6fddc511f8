# borys

Tools for fitting a figure of nearly rigid edges into a polygonal hole on
the integer lattice: a hole is given, and the vertices of the figure must be
placed on lattice points so that every edge lies inside the hole and keeps
its squared length within a tolerance given in millionths. A placement is
scored by its *dislikes*: the sum, over the vertices of the hole, of the
squared distance to the nearest vertex of the figure.

The library under `src/` is written in Verus; every function in it has a
contract that Verus proves.

- `geometry`: lattice points, exact orientation and crossing predicates.
- `task`: the problem as read from JSON and as the solver sees it.
- `helper`: the per-problem tables (what is inside the hole, which
  displacements keep an edge's length) and the placement checks.
- `scores`: the integer measures of a placement and the orders on them.
- `rand`: a xorshift generator, random permutations.
- `solver`, `grid_solver`: randomized vertex-by-vertex placement; splitting
  the figure at an edge.
- `shifting`, `local_optimizer`, `rec_optimizer`, `rec_optimizer2`,
  `placement`: the moves that the improvement loops try.
- `scanner`, `text`: whitespace-separated numbers, read and written.
- `vizualizer`: the state and events of the interactive viewer.

`app/` holds the programs around the library: file and JSON input and
output, pictures, the SDL viewer, the timed loops and the decisions that
rest on floating-point measures.
