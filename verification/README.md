# flexi_cad

The storage, undo and dependency core of FlexiCAD, a collaborative CAD
kernel, verified with Verus.

- `src/` is the verified library.
  - `operation_manager/data_manager/database.rs`: the objects of a drawing
    in a concurrent map (`ccl`), their encoding with `bincode`, and undoing
    recorded changes, with the laws that undoing a recorded event gives the
    objects back and that opening what was saved gives the saved objects;
    the bytes written are stated as bincode lays them out, and reading them
    back is proved.
  - `operation_manager/data_manager/undo.rs`: undo events, the open events
    and the undo and redo stacks.
  - `operation_manager/data_manager/mod.rs`: the data of one drawing, the
    effect of each operation on it, and the undo/redo and cancel laws.
  - `operation_manager/dep_manager.rs`: the dependency graph between pieces
    of geometry and its breadth-first search (sound, complete, and in
    breadth-first order with each piece reached from the first reached piece
    it follows), with the result kept in an `indexmap` set.
  - `operation_manager/mod.rs`: one drawing, data and dependencies together,
    and the bookkeeping of a refresh.
  - `app_state.rs`: the open drawings by path; every operation changes only
    the drawing it names.
  - `entity_ops.rs`, `entities.rs`: copying groups of objects with the
    references between them, and the references that walls and dimensions
    hold.
  - `text.rs`: decimal numbers, identifiers as UUIDs and escaped paths for
    the state dumps.
- `tests/`: tests of the library.
- `app/`: the program around it: entities and their floating point
  geometry, file reading and writing, update channels, and a command loop
  on standard input and output.
