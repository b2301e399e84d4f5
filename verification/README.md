# dsn_router

A Spectra DSN board reader and PathFinder auto-router whose core is proved
with Verus.

- `src/` – the verified library:
  - `sexpr`, `reader`, `text`: the S-expression tree, the reader's grammar
    (as spec functions) and the reader that follows it;
  - `dsn`: the typed board (`Pcb`) and the parsers of each section, each equal
    to a spec function over the tree; numbers are kept as the file's text;
  - `grid`: the routing grid (obstacles, occupancy, history, PathFinder cost);
  - `search`: the A* search graph, with the search itself done by the
    `pathfinding` crate;
  - `commit`, `steiner`, `router`: committing paths, joining all pads of a
    net, and the PathFinder passes;
  - `serialise`, `reread`, `routed_board`, `reimport`: writing a wiring
    section into a DSN text, and the proofs that the reader reads the written
    section back, that a board with the section written into it reads as the
    same board with the written wiring, and that the whole text parses back
    to that board. The round trip is proved for texts with the
    `(string_quote ")` directive and quoted names; it assumes that the
    written names and numbers hold no quote or parenthesis, that no item of
    the preprocessed board is a lone unmatched double quote (quoted names are
    read without their quotes, so they never are), that the text's last `)`
    closes no directive, and, where the board already has a wiring section,
    that no item after it is tagged `wiring` and that preprocessing moves the
    section to where the reader's text finds it;
  - `rewrite`: the proofs that a written section closes where it ends and
    holds no quote directive, and that writing the same wiring twice gives the text
    of writing it once;
  - `assemble`: the board's wiring followed by the routed nets' wires and vias;
  - `board`: KiCad layer names and numbers, net numbers, net classes and
    design-rule defaults.
- `app/` – the command line program: file I/O, world-unit geometry (floating
  point), pad positions, net order, and KiCad / Gerber output.
- `tests/` – tests of the library on concrete boards and grids.
