# matter_core

A 2D rigid body physics engine. The verified library in `src/` holds the
parts of the engine that are integer and bookkeeping logic, each with a
contract proved by Verus:

- `body`: body handles and collision filters.
- `collision`: pair identifiers, collision filtering, the detector's decision
  which bodies to test, and the lifecycle of colliding pairs (which pairs
  start, continue and end at each step), with laws about that lifecycle.
- `composite`: composites of bodies, constraints and child composites, and
  the recursive collection of everything a composite contains.
- `constraint`: constraint handles and the order in which constraints are
  solved (fixed ones first).
- `engine`: collision events and the contact counting of the resolver.
- `factory`: the number of sides used to draw a circle.
- `geometry`: the choice of one edge per normal gradient, made with an
  `indexmap::IndexMap`.

`app/` holds the floating-point engine (vectors, vertices, bodies,
constraints, narrow-phase collision, the resolver and the simulation loop)
and the WebAssembly binding; it calls the library for every decision above.
