# kexplore

A graph-based file explorer for Wayland: directories open as draggable boxes
on a pannable canvas, connected to the rows they were opened from; files can
be previewed as images or opened with a configured handler.

## Layout

- `src/` — the library, written in Verus: every function carries a contract
  and is proved against it. It holds the logic that does not depend on the
  window system or the GPU: argument parsing (`cli`), the URL bar
  (`textfield`, `urlbar`, `keyboard`), handler rules (`handlers`), path
  navigation (`navigate`), the node tree (`model`, `ui`), atlas packing
  (`text`), surface and device selection (`surface`), and the bookkeeping of
  draw batches, staging uploads and preview textures (`render`, `upload`,
  `textures`, `preview`, `pointer`). Properties that span several calls are
  stated as `law_*` proof functions.
- `app/` — the program around it: the Wayland client, the Vulkan renderer,
  font and SVG rasterisation, image decoding, worker threads and process
  spawning, and the floating-point layout and drawing of the canvas.
- `tests/` — executable tests of the library.
