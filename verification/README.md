# todooer

Finds TODO- and FIXME-marked comments in source files and ranks them: a
TODO whose last letter is repeated (`TODOOOO`) ranks higher than a plain one.

- `src/` is the library, verified with Verus:
  - `text.rs`: byte-level substring search over UTF-8 text, char comparisons;
  - `runs.rs`: runs of equal characters and `SequentialCount`;
  - `scan.rs`: reading one line (marker column, priority, proper comment);
  - `report.rs`: marked lines of a file, `Line`, and the per-file `Report`;
  - `laws.rs`: properties that span several functions.
- `app/` is the terminal program: argument parsing, directory walking,
  file reading on a thread pool, and the table display.
- `tests/` runs the library on concrete inputs.
