# termwindow_render

Two parts of a terminal window, written and proved in Verus:

- the matrix-rain transition that plays over the active pane when the user
  switches tabs, and
- the tab bar: where it is, how large it is and how it is painted.

The library decides; the host draws. It reads the window, the panes and the fonts as
plain values and tells the host what to do next. Nothing in it is trusted: every
function has a contract and a proof.

## Layout

`src/` is the verified library.

- `rounding`, `single`: single-precision numbers, held by their 32 bits and computed
  on integers. Each operation delivers the bits that IEEE 754 asks for, so the
  contracts pin positions, colours and times to the last bit. `single_laws` holds
  what is known of them: what is exact, and what keeps the order. `error_laws` says
  how far a result can be from the exact one.
- `hash`: the hash that gives each column of the rain its own lengths.
- `screen`: snapshots of a pane, and where two of them differ.
- `glyphs`: fonts, the memo of shaped text, the palette of the falling stream.
- `term_window`: the window, as far as the rest reads it.
- `tab_bar`: position, size, handle and painting of the tab bar.
- `matrix_rain`: the start of a transition, and what there is to do in a frame.
- `rain_frame`: the steps of a frame. `rain_painter` carries them out.
- `ramp_laws`, `rain_laws`, `time_laws`, `glyph_laws`, `painter_laws`: what holds of the
  rain as a whole. Columns that did not change are skipped, a column is built no deeper
  than its deepest change, the stream keeps its distance from both texts, the texts
  finish together, what has slid into place stays, glyphs are centred in their cells
  and settle to their normal size, shaping is capped per frame, and the painter paints
  all steps in their order.

`tests/` runs the library, much of it against native floating point. `app/` connects
it to a window system, a multiplexer and a renderer.
