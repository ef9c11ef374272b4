# org-roam-sync

Keeps the Org-roam database in step with a directory of notes.

The library under `src/` is verified with Verus. It reads nodes, tags and
aliases off the text of a note, decides which notes are new, changed or gone,
and lists the statements that bring the database up to date. `src/db.rs` proves
what a sync achieves: afterwards the database lists the notes on disk with their
hashes, nothing stale is left, of several nodes with one ID the last one stays
with its tags and aliases, notes that did not change keep their rows, and a sync
that finds nothing changed has nothing to do.

The Emacs module around it is under `app/`: it walks the directory, reads the
files, and executes the statements on the database. `tests/` runs the library,
also against a database in memory.

What is not proved is marked `#[verifier::external_body]`: the calls into
`regex`, `sha1` and `org-element`, and three functions of the standard library.
Each of them states above it what is taken for granted.
