# spice_layout

Places the elements of a checked SPICE netlist on a schematic sheet. The
library under `src/` is written in Verus: every function carries a contract
that Verus proves, and the laws that relate functions are public proof
functions next to them.

* `netlist`, `symbol`, `placement`: the data. Nets are indices into a sorted
  table, lengths are micrometres, origins are steps of a 50 mil grid.
* `net_class`, `bands`, `channels`, `layers`, `flow`, `dc_rank`: what the
  netlist says about rails, rows, columns and facings.
* `seed`, `constraints`, `relation`: the first layout and the user's `align` and
  `place` directives.
* `idioms`, `shared_center`, `rail_stub`, `series`, `dc_series`, `dc_column`,
  `dc_layout`, `archetype`: recurring sub-circuits.
* `orient`, `pose_pick`: which poses an element may take, and which it takes.
* `legalize`, `compact`, `pin_clash`: no overlaps, no gaps, no shorts.
* `cost`, `cost_rows`, `wires`, `crossing`: what a layout costs.
* `extent`, `footprint`, `glyph_geom`, `label_geom`: the room that symbols,
  texts, glyphs and labels take.
* `values`, `names`, `words`: printed values, net names and lists of words.
* `place` runs the passes; `limits` checks at run time what they ask of their
  input: bounds under which no layout overflows 32-bit grid coordinates.

Mirroring structurally paired elements and refining a layout by annealing are
not part of the library. The passes are public one by one, so that a caller who
has them runs them in between; the documentation of `place` says where.

`tests/` holds the tests. `app/` is ordinary Rust around the library: floating
point, environment variables and messages.
