# Mazui

Mazui grows a branching maze inside a regular polygon from one random seed and
picks its start and exit as the two ends of the maze's longest shortest path.

## Layout

- `src/` is the verified library (Verus):
  - `graph.rs`: adjacency lists of an edge list, breadth-first search for the
    farthest node, and the two-sweep diameter, with their contracts over
    bounded-length reachability.
  - `tree.rs`: trees given as connected lists of `n - 1` edges, their path
    metric, and the proof that two breadth-first sweeps over any tree find its
    exact diameter; trees grown one node at a time are such trees.
  - `growth.rs`: the integer side of generation: making candidate lines from
    three draws of the seeded generator, laying down one node per unit of an
    accepted line, the rule that stops after a run of failures, and the start
    and exit.
  - `random.rs`: the draws from `rand`'s seeded generator. They are trusted
    calls into rand, whose contracts state the range of each draw and keep a
    ghost record of the ranges requested and the values returned.
- `app/` is the egui program: floating-point geometry, the generation loop that
  tests candidate lines against the polygon and earlier lines, drawing, and the
  ball that follows the cursor.
- `tests/` exercises the library on concrete inputs.
