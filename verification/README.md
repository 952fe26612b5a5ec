# ionize

Lays out control-flow graphs (such as SpiderMonkey's MIR and LIR passes) and
draws them as SVG.

## Layout

- `src/` is the verified library.
  - `graph`, `opts`, `err`: the graph model, layout options and errors.
  - `validate`, `cycles`: the checks made before layout, in a fixed order,
    with the first failure reported.
  - `srcs`, `engine`: the layered plan: roots, loops, layers, a layout node
    per block and dummies for edges that cross layers.
  - `draw`: the diagram model (tables, cells, runs, labels, metadata), the
    checks on it and XML escaping.
  - `cli`: turning a selected compiler pass into a diagram: name and index
    selection, sample counts, opcode splitting and the block tables.
  - `text`, `first`: shared helpers on characters, decimals and searches.
- `app/` is the program around the library: argument parsing, reading and
  writing files, JSON decoding, fonts and text shaping, and the
  floating-point geometry of placement, edge routing and SVG output.
- `tests/` exercises the library through its public interface.
