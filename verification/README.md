# too

The core of a terminal user-interface toolkit, written in Verus: Verus
proves every function in `src/` against its contract; the public functions
and the ones the others rely on state what they return or change.

## Layout

- `geom`, `style`, `keys`, `input`, `interest`: positions, rectangles and
  margins; colors and palettes; keys, modifiers and backend events; the events
  a view receives; the kinds of input a view asks for.
- `view_nodes`, `layout`, `render`: the tree of views kept between frames, the
  rectangles and input layers each frame lays out, and the order views are
  drawn in.
- `input_state`: where the mouse is, what it hovers, what has focus, and which
  views each backend event is handed to, in which order.
- `state`, `event_ctx`, `response`: the state behind a user interface and the
  bookkeeping of a frame; what a view sees while it handles an event; what
  showing a view hands back.
- `filter`, `debug_tree`, `pretty_tree`, `debug`: searching the view tree, and
  drawing it as text for inspection.
- `text`, `helpers`: string measurements and edits over grapheme clusters.
- `views`: the state machines behind the built-in views (text input, buttons,
  checkboxes, radio buttons, mouse and key areas, scrollables, toggle
  switches, drop-downs) and their styles.
- `test_input`: scripted mouse steps and the backend events they stand for.

`app/` holds what cannot be verified: sizes, layout constraints, flex factors
and how a list measures and places its children, which compute in floating
point.

Laws that relate several operations are public proof functions named
`lemma_*`, next to the functions they speak of.

Not here: the `Ui` builder and the `View` trait that drives views, the render
context and rasteriser that draw them, and the views that measure or draw in
fractions of a cell (slider, progress bars, split views, labels' text
measurement, expanders, separators and fills). The library holds the state
machines and rules those parts decide with; the parts themselves rest on the
renderer and on floating-point layout.
