# randomprime_patcher

Patches a disc image of Metroid Prime so that its pickups hold the items of a randomizer layout.

- `src/` is a Verus library with the rules of patching. It reads layout strings (`layout`, on the
  arithmetic of `digits` and `bignum`), changes rooms (`area`, `objects`), paks (`pak`) and whole
  discs (`patch`, `files`, `starting_items`, `totems`, `resources`), and keeps count of what is
  written (`progress`). Every function states what it computes, and is proved to do so.
- `rooms`, `worlds` and `discs` hold what follows from those statements: for instance that every
  location of a patched disc holds the item that the layout names for it
  (`discs::law_disc_holds_items`), and that no two layout strings place the same items
  (`layout::law_layout_determines_text`).
- The library works on plain values (`model`, `tables`). Floating-point numbers are held by their
  bit patterns, and what patching does not look at is carried as a number.
- `app/` is the program around the library: arguments, files, messages, floating point, and the
  disc format, which the `randomprime` crates read and write.
- `tests/` runs the library.
