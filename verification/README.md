# fdu

A fast disk usage analyzer for the terminal, with a core that is proved correct
with Verus.

- `src/` is the library. Every function in it carries a contract: what a scan
  makes of the entries it finds, how the tree is put together and sorted, how
  the browser moves through it, what the keys do, and every line of text that
  the screen shows.
- `app/` is the program around it: reading the disk, the channels between
  threads, the terminal, files.
- `tests/` runs the library on concrete values.

The main statements are public proof functions. `accounting` proves that the
sizes and the nodes of a tree account for everything reported, `arrival` that the
order of the reports does not matter, `aggregation` that the largest files are
kept, `sorting` that the sort is stable, `navigation` that a child
stays selected and visible however one moves, `worker` that the queue closes
exactly when every directory is done, `crew` that workers in any number and
order report everything once, and `removal` that deleting a directory
takes everything in it and nothing beside it.

What is believed without proof is stated in three places: `strings` (three
functions of the standard library), `sizes` (humansize) and `layout` (ratatui).
