# typstuml

A library for laying out and emitting UML-style diagrams for Typst, with its
logic verified by Verus.

`src/` holds the verified library:

- `ir/`: the diagram models (trees, activity, state, use-case and flowchart
  diagrams) and their invariants.
- `codegen/`: Typst emission of tree diagrams (node calls, escaping, colours)
  and the tree-to-graph conversion.
- `diagnostics.rs`, `text.rs`: diagnostics and string helpers.
- `layout/dag.rs`: a ranked directed acyclic graph.
- `layout/elk/alg/`: the integer core of the layered graph layout: the graph
  arena with its synchronised relationships, greedy cycle breaking (its
  ranking stated step by step, ties and generator draws included),
  connected components and depth-first layering helpers, long-edge
  splitting into chains of dummies and joining, label-dummy switching and label-side selection,
  port-side processing, reversed-edge restoration, external-port dummies,
  the model-order comparators of nodes and ports, reading the layout
  options of a graph, the set-up of the layer sweep (the breadth-first
  walk of nested graphs, renumbering, generator draws and the bottom-up
  decision), crossing counting with a binary indexed tree (between two
  layers and inside one side of a layer), the Brandes-Köpf conflict
  marking and vertical alignment, and the generator used for tie
  breaking.

Every public function states its result in `ensures`; laws relating several
functions are public proof functions (for instance reversing an edge twice,
restoring what cycle breaking reversed, joining what splitting created).

`app/` holds the error types the command-line program reports. Coordinates,
sizes and other floating-point geometry are not part of the library.

`tests/` exercises the library on concrete graphs.
