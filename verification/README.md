# rover_planner

The planning logic of a robot that explores a grid world, plans a road network between
the points of interest it found (bins, crates, banks, markets) and builds that network
with the rocks it collects. The logic is written in Verus and verified; the program
around it, which drives the robot in the world, is in `app/`.

Modules of the library (`src/`):

- `merge_find`: a disjoint-set forest with union by rank and path compression, with
  the laws that a union joins exactly the two classes, a find changes no class and
  points the path it walked at the root, and ranks stay logarithmic.
- `spanning`: the candidate connections between points (each point linked to its
  nearest followers, ordered through a priority queue), a stable sort by cost, and
  Kruskal's selection of a minimum spanning forest (`kruskal`, `por`).
- `forest`: laws of Kruskal's selection: it keeps only given connections, cheapest
  first; it is a forest; with distinct costs it does not depend on the input order; and every given connection has its endpoints linked by kept
  connections that cost no more than it (the cycle property of minimum spanning forests).
- `queue`: the trusted interface to the `priority-queue` crate.
- `world`: the grid model (tiles, contents, directions) and the path-to-road planning.
- `explore`: frontier cells, the scan for the next cell to explore from, and the
  search for rocks and points of interest.
- `render`: the symbol drawn for each cell.
- `robot`: the robot's decisions: the mode of each tick, reactions to the outcomes
  of moves, exploration and street building, and the long roads between the corners.
