# Merkle Audit

A library for Merkle audits of directory trees, and a desktop explorer around it.

An audit hashes every file of a directory with SHA-256 or BLAKE3, hashes every
directory over the hashes of its children, and puts the root hash on record.
Audits can be exported, compared with each other, and explored as cards on a
canvas.

The library in `src/` is verified with Verus.

| module | what it holds |
| --- | --- |
| `text`, `paths`, `sort` | strings, path syntax, stable ordering |
| `hashing` | the digests of files and texts |
| `node`, `scan` | the node table, and how a scanned directory becomes one |
| `merkle` | the hashes of directories |
| `audit`, `export` | audit records, the ledger, exported reports |
| `diff` | the comparison of two reports |
| `graph` | node tables as `petgraph` graphs |
| `visible`, `layout` | which nodes are shown, and where their cards stand |
| `cards`, `filter`, `explorer` | icons, colours, labels and highlights of cards, and the filter |
| `history` | undo and redo |
| `watcher` | what a file watcher reports |
| `session` with `loading`, `moves`, `navigation`, `reports` | the session of a user and how it answers events |

Functions named `law_*` state and prove what holds across several operations.

`app/` is the explorer itself: the window, the threads that scan and hash, file
dialogs, the file watcher and the alert sound. It keeps the file system's own
paths, which the nodes of the library name by number, and everything that is
floating point: the camera's arithmetic and the places of cards on the screen.
