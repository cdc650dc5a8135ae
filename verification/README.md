# localzip

The rules of LocalZip, an offline archive tool (zip, tar family, 7z, RAR,
raw-cut volume sets), written in Verus and proved against their contracts.

- `src/` — the verified library:
  - `text`, `names`: characters, decimal numbers and paths as sequences;
  - `split`: raw-cut volume names (`foo.zip.001`), finding a whole set from
    any of its volumes, and the layout that reads the volumes as one stream;
  - `rar`: RAR volume naming (`.part1.rar`, `.rar` + `.r00`), the listing of
    a set's members and the error codes;
  - `archive`: format by name, inner-path normalisation, zip-slip-safe
    joining, selections, the listing summary and its zip-bomb warning;
  - `plan`: what extraction, testing and updating do with each entry;
  - `ops`: running operations, progress counting, end-of-operation messages;
  - `tray`: start-at-login reconciliation and close-to-tray decisions.
- `app/` — the disk, the compression crates, threads and the registry,
  calling the library for every decision.
- `tests/` — the library's tests on concrete values.
