# asseteer

The core of a desktop asset library for images and audio: it indexes folders and the
(nested) ZIP archives inside them, reads assets back out of nested archives through a
memory-budgeted cache, plans processing work, and looks after the local
semantic-search server it starts.

- `src/` is the library, verified with Verus: every public function states what it
  returns or changes in `requires`/`ensures` over spec functions and views, and the
  library's laws are public proof functions (`law_*`). The few calls into outside
  crates (`zip` for reading archive entries, `base64` for thumbnails and drag
  previews) sit behind small trusted wrappers whose contracts are written next to
  them.
- `tests/` runs the library on concrete values.
- `app/` is the thin part that touches the machine: files, folder walks, processes,
  sockets, the clipboard, the clock, the free-memory figure that sizes the archive cache
  (`windows-sys` on Windows), and the floating-point progress rates. It makes
  no decision of its own; it performs what the library decides.
