# spaze_finder

The library behind SpazeFinder, a Windows app that scans a drive and shows what takes
up the space as a biggest-first tree, with Explorer-like actions (open, reveal, rename,
move, delete to the Recycle Bin) that update the tree in place.

The library is written in Verus and proved against its contracts:

- `src/tree.rs`: the scan tree (`Node`) and its mathematical value (`Tree`); finding an
  entry by path, and removing, renaming and inserting entries with the sizes of the
  folders above them kept up to date.
- `src/order.rs`: listing a folder's entries biggest first, entries of one size in the
  order they came in.
- `src/scan.rs`: building the tree from what a walk of the drive read, and the scan's
  counters.
- `src/commands.rs`: what the app's commands decide before and after each file operation.
- `src/drives.rs`, `src/text.rs`: drive letters, file-name checks, UTF-16 names.
- `src/laws.rs`: properties across the operations (folder sizes, order, totals).

`app/` is the Tauri program around it: the drive walk, the file operations, Windows
calls and the UI commands.
