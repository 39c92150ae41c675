# hwboard

A local whiteboard for pen input: pressure-sensitive strokes, an eraser,
undo and redo, images pasted from the clipboard, selection with move, resize
and rotate, snapping a held stroke to a line, triangle, rectangle or circle,
and an infinite canvas. The board survives a crash through an append-only
journal that is replayed at start-up.

## Layout

- `src/` is the library, verified with Verus:
  - `scene`: the item store (items by id, z-order, id allocator, change logs);
  - `command`: the undoable edits and how each is applied and taken back;
  - `history`: the bounded undo stack and the redo stack;
  - `restore`: what taking a deletion back gives back, and fresh ids;
  - `actions`: board actions that record exactly one command;
  - `journal`: the journal's byte format, reading it back up to a torn
    write, and replaying its events;
  - `input`: the pen and mouse state machine (down, move, up, hold);
  - `keys`: the keyboard and side-button bindings;
  - `mesh`: how stroke vertices are joined into triangles;
  - `growable`: when a GPU buffer is reallocated and what is uploaded;
  - `tool`: tools, shape kinds and the snapping rules.
- `app/` is the program around it: the SDL3 window and events, the wgpu
  renderer, the float geometry of items, strokes and the camera, the journal
  file and its writer thread, and the clipboard.
- `tests/` exercises the library on concrete values.
