# notetaker

The core of a modal text editor, verified with Verus.

- `src/` is the verified library:
  - `editor_core`: key presses and modifiers, key bindings (parsing binding
    descriptions, a trie per mode, resolving presses with a timeout), the
    event bus, text buffers over a rope, and the split-view workspaces (a
    tree kept in a map by id, and one kept in a vector), with the shape of a
    split tree and its lemmas in `split_tree`.
  - `editor_renderer`: the glyph atlases (shelf packing, pixel copies), the
    layout of a line of glyphs, and the surface size.
  - `doc_core`, `editor_common`: small shared types.
- `app/` is the program around it: the window (winit), the Lua configuration
  (mlua), text shaping (cosmic-text), GPU drawing (wgpu), and the floating
  point geometry that the workspaces are handed as closures.
- `tests/` exercises the library on concrete values.
