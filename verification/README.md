# file_commander

A two-pane file manager whose decisions are verified with Verus.

- `src/` is the verified library:
  - `path.rs` holds a file-system path as its text, whose meaning is an
    optional root and its components, read the way a Unix path is read, with
    parsing, parent, join, file name, extension, equality and the
    component-wise order of paths;
  - `fs.rs` holds directory entries, how a listing is built from what the
    file system reports (names, times written with chrono), the listing order
    (directories first, then names ignoring case, ties kept in place) and the
    rendering of sizes;
  - `pane.rs` holds what one pane shows and how every user action changes it,
    given the outcome of the file-system work it asked for;
  - `app.rs` holds the shared clipboard and the two-pane window;
  - `order.rs` and `text.rs` hold orders on sequences and character work.
- `app/` is the desktop program: the egui window, reading and changing the
  file system, the system clipboard, the trash and launching applications.
- `tests/` runs the library on concrete values.
