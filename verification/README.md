# disk_lens

The core of DiskLens, a disk usage analyser: the rules that turn a directory
walk into an aggregated size tree, cut that tree down for display, walk it by
name, export it with absolute paths, read the mount table and the volume
facts, and rebuild a tree from the flat records of an NTFS change journal.
The library's functions are verified with Verus against their contracts,
except four small trusted wrappers around std (the platform path separator,
and building a `String` from characters, from lossy UTF-8 and from lossy
UTF-16), whose contracts restate std's documentation; `std::io::Error` is
declared as an opaque type.

## Layout

- `src/` — the verified library
  - `models` — the tree node, scan results, drive entries, errors, and their
    mathematical views
  - `order`, `totals` — the stable largest-first sort and the sums of node
    fields, with their lemmas
  - `prune` — size-bounded copies of a tree (count or percent cut-off,
    aggregates of the rest, folded files) and its laws
  - `navigate` — child lookup by name and lazy expansion of a node
  - `export` — the export tree with paths, shares and the size threshold
  - `scan` — per-scan counters, error log and progress throttle, file sizes,
    directory aggregation, scan results
  - `tree_builder`, `usn` — journal pages parsed into flat records, paths
    rebuilt from reference numbers, the tree built from the records
  - `mounts`, `paths`, `volinfo`, `windrive` — mount table, scan targets,
    volume facts and the drive picker
  - `text`, `platform` — string helpers and the platform separator
- `tests/` — tests on concrete trees, tables and byte pages
- `app/` — the walk over the real file system, the volume and drive queries,
  the commands the frontend calls and the JSON export file
