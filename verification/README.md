# triforce

Tilings of regions of the triangular lattice by polyhexes, the metagraph of
the moves ("recombinations") between complete tilings, and the search for
fixed regions every cover of which has a metagraph that reaches a
completion of a given partial tiling in each connected component.

Nodes are `(x, y)` coordinates where `x` and `y` have the same parity; `x`
grows to the right and `y` downwards.  Regions are sorted, and normalised
so that their smallest node is the origin.

## Layout

- `src/` is the library, written in Verus.  Its functions carry contracts
  and are verified, except the small wrappers marked
  `#[verifier::external_body]` around calls into `rustworkx-core`, `lru`
  and the standard library (the clock, string splitting): Verus takes
  their contracts on trust, and each one's doc comment says what it
  claims of the call it makes.
  - `node`, `sorting`, `ordset`, `region`, `lattice`, `compact`: nodes,
    sorted node sets, sets kept as sorted vectors, regions, graphs, and
    regions as bitsets over a universe of at most 128 nodes.
    The sets of regions and tilings that a search has seen (hash sets in
    a plain Rust program) are kept as strictly sorted vectors of keys
    (`ordset`), so that their contents can be stated and proved; for the
    same reason the enumerations and the minimal covers are returned as
    such sorted vectors.
  - `polyhex`, `recomb`: the connected regions of a given size, and the
    table of the ways to split the union of two tiles into two tiles.
  - `color`, `tiling`, `enumerate`, `recombine`, `reach`: partial tilings,
    their enumeration, recombination moves, and the tilings reachable by
    them.
  - `covers`, `masks`: the minimal covers of a region, found by growing
    tile by tile, with plain and with precomputed bitsets.
  - `happy`, `search`: whether every cover of a region is happy, and the
    search for a region all of whose covers are.
  - `concurrency`, `graph`, `metagraph`: the worklist of the search, graph
    algorithms (longest shortest paths, decomposition along minimum cuts),
    and the metagraph of the complete tilings of a graph.
  - `cli`, `timer`: parsing of graph sources and partial tilings, and a
    stopwatch and the labels of its readings.
- `tests/` runs the library on concrete inputs.
- `app/` holds the command-line tools: reading and writing JSON, printing,
  and running the library.
