# reda

Redstone logic, from a netlist to a world and back: a verified library.

- `formats`: schematic files, from the packing of block numbers into words to whole
  worlds.
- `frontend`: gate-level netlists, read from what Yosys writes.
- `compile/satcnf`: formulas over named groups of clauses, a solver that learns from
  conflicts, and minimal sets of groups that contradict each other. What a solve
  answers is settled by its clauses and its budget, and a decided answer stays the same
  under every larger budget.
- `compile/double`: sums and products in double precision, on bits.
- `compile/topology`, `compile/expansion`: the kinds of gate, what each is built of,
  and what that costs.
- `compile/routing_stats`: how much dust and how many repeaters a layout spends on
  each part of its routes.
- `compile/world_partition`: what accounts for every block of a world.
- `compile/strength_differential`, `compile/resettle_differential`: what a circuit's
  signals carry, held against what a settled world says.
- `compile/relax`: the bodies and springs that a circuit is placed by.

`src/` is verified by Verus. `app/` is ordinary Rust around it: files, processes, and
the springs themselves, which are solved in floating point. Nothing in `app/` is
verified.
