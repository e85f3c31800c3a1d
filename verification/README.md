# xvw core

The verified core of a hex editor: the number texts and byte values of the
data inspector, the cells, highlights, scrolling and row layout of the hex
view, the pane tree, the structure tree, the file tree, and the state of the
search, strings and checksum panels. Every function in `src/` carries a
contract that Verus proves, but for a few thin wrappers around std and
the ignore-file matcher of `autocorrect`, whose contracts are trusted.

- `src/` is the library, verified with Verus.
- `tests/` runs the library on concrete values.
- `app/` is a small command-line front end: it reads files and folders,
  keeps the states saved between sessions as JSON, and holds what works in
  floating point (the pixel layout of the hex view and the float rows of the
  inspector).
