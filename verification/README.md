# pastel

The drawing logic of a small bitmap editor, written in Verus with its
contracts proved.

- `src/` is the verified library: colors and their blending (`color`),
  images (`image`), flood fills (`fill`), lines and shapes (`lines`,
  `shapes`), the canvas with its undo stack and painting mask (`canvas`),
  the marks drawn over the window while dragging (`overlay`), the state
  machines of the interactive tools (`interact`), transformations made
  through the `image` crate (`transform`), the palette and its text form
  (`palette`, `text`), tool settings (`tools`) and the editor's controls
  (`controls`).
- `app/` is the program around it: the window, its event loop, files, and
  the drawing that rests on floating point.
- `tests/` runs the library on concrete pictures.
