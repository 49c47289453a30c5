# tre

folders → `.tre` → folders. Point it at a folder to get its tree, or at a
tree to get the folders.

The crate is a library verified with Verus, and a command-line program
around it.

- `src/` is the library: reading tree text (`line`, `parser`, with the
  private `entry`), decoding bytes (`decode`), drawing and sorting listings
  (`render`), building a listing from what a folder walk found (`scan`), what a scan
  leaves out and when it stops (`exclude`, with `globset`),
  planning a build against what is on disk (`plan`), and the numbers and
  orders that the printed plan uses (`ui`). Every verified function
  carries a contract over a mathematical model of its data; the few calls
  into std and `globset` sit behind small trusted wrappers whose contracts
  say what those libraries document.
- The properties that span functions are proof functions: every parse
  gives a safe tree (`shape`), a drawn listing parses back to its entries
  (`round_trip`), the plan never overwrites and contains conflicts
  (`plan`), tree order lists each item once, keeps subtrees together and siblings
  in order, and scans list each entry once (`ui`, `scan`),
  sorting orders and keeps entries and drawing gives one line per entry
  (`render`), text written as UTF-8 or UTF-16 decodes to itself
  (`decode`), and CRLF line ends and tabs read as LF and spaces
  (`spacing`).
- `app/` is the program: arguments, the folder walk, the disk, colors and
  printing.
- `tests/` runs the library on concrete inputs.
