# glyphvis

glyphvis drives grids of segmented glyphs (Hangeul characters drawn on a
virtual segmented display) from OSC commands: glyphs are staged per grid and
reached through transitions that switch segments on and off step by step,
following the connections between segments.

## Layout

- `src/` — the library, verified with Verus.
  - `text`, `segment`, `order`: names of segments (`"col,row : id"`), their
    parsing, string order, sorting and de-duplication.
  - `name_map`, `segment_set`: the keyed collections the rest is built on.
  - `grid`, `grid_init`, `stretch`: the grid laid out from the base tile,
    neighbouring tiles and edges, which elements can coincide.
  - `svg`: finding the elements of the base tile and the numbers in them.
  - `segment_graph`, `segment_analysis`: connections between segments,
    paths, nearest lit segments.
  - `transition`, `stroke`, `writing_order`: planning transitions between
    glyphs, spread over steps or in writing order.
  - `osc`, `osc_encode`, `launcher`, `keys`: decoding and encoding OSC
    messages, turning commands into actions, keyboard shortcuts.
  - `project`, `glyph_model`, `effects`, `config`, `geometry`, `output`,
    `services`: the project, glyph stepping, named effects, settings, axes,
    output file names.
  - `capture`: when the recorder takes a frame, which frame and which
    staging buffer.
- `tests/` — tests of the library.
- `app/` — a program around the library: reads `config.toml`, the project
  and its base tile, listens for OSC and for keys typed on the terminal, and
  plays transitions. Floating-point geometry lives here.
