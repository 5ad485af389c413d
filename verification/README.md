# brightfield_render

Chart rendering logic, written and proved in Verus.

The library turns tables of data into display lists: it infers scales, places
and colours marks, and composes plots and dashboards. Every function under
`src/` states in its contract exactly what it returns or draws, and Verus
proves it. Laws that span several functions are public proof functions whose
doc comments state them in words.

- Numbers. `number` and `single` hold double- and single-precision numbers by
  their bit patterns; their arithmetic is proved to round to the nearest, ties
  to even. `bounds` holds what rounding keeps: order, ends and middles;
  `accuracy` and `nearness` how far a rounded result is from the exact one.
  `shortest` writes a number in as few digits as read back as it.
- Data. `batch` reads Arrow record batches into plain cells.
- Scales. `scale`, `infer`, `union`, `scale_set`, `pins`, `colour_override`.
- Marks. One module for each family (`dot`, `bar`, `line`, `rect`, `rule`,
  `text_mark`, `density`, `raster`, `cell`, `contour`, `hexbin`, `hexgrid`,
  `regression`, `geo_mark`), and `mark` for what a mark is to a plot and for the
  registry.
- Maps. `projection`, `cartography`, `geo`, `geojson`.
- What settles up to rounding. `fitting` (an aspect fit made twice) and
  `meshing` (a mesh beside the hexagons it underlies).
- Plots. `scene`, `widgets`, `selection`, `sample_notice`, `nearest`.

What floating-point functions and fonts compute (sines, logarithms, lengths,
glyph advances) is handed in as plain numbers. `app/` computes those values and
paints a finished display list into a Vello scene.
