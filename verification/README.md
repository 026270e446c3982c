# dircompare

Compares two directory trees by file name. Every name found under either
root becomes a group that lists where the name occurs on each side, with
sizes; a group is a match (one size everywhere), a size mismatch, or present
on one side only. Duplicates within one side can be removed, and the view can
be filtered by status, by duplicates and by a case-insensitive search.

- `src/` — the verified library: grouping and ordering of names (`listing`),
  group status and duplicates (`group`), the session state and the effect of
  each user action (`session`), size formatting (`size`), labels and colors
  (`labels`), text helpers (`text`), and cross-function properties (`laws`).
- `app/` — the desktop window: directory walking, file removal, folder
  pickers and drawing.
- `tests/` — tests of the library on concrete values.
