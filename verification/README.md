# iscsimon

A terminal monitor of the iSCSI sessions of a Linux LIO target: which
initiators are logged in to which targets, from which addresses, through
which block devices, and how fast they read and write.

- `src/` is the verified library, proved with Verus: parsing of what configfs,
  `ss` and `getent` report, the per-session rate bookkeeping, the session
  table's filter, sort and selection state, and the text of the name,
  device and total columns and of the header.
  `src/laws.rs` states the properties that span several operations.
- `app/` is the program around it: reading configfs, running `ss` and
  `getent`, the clock, the float rate arithmetic and the formatting of the
  rate cells, and the ratatui screen.
- `tests/` runs the library on concrete inputs.
