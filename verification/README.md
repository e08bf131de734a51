# soundvault_lib

Soundvault scans a folder of Ableton Live projects, finds the samples used
most across them, and copies the top picks of each category into one
organized folder. Project files are only ever read.

This crate is the verified core, written in Verus: the verifier checks every
function in `src/` against its contract. The functions of the cancellation
flag carry none, since the flag is shared between threads and another
thread may set or clear it at any time.

## Layout

- `src/text.rs`, `src/paths.rs`: strings as character sequences, and paths
  built on what `std::path` gives on the platform at hand (its components
  and its join), from which file name, stem, extension, order and equality
  follow.
- `src/taxonomy.rs`: the category tree and its flattening.
- `src/parse.rs`: reading a set (`.als`, gzip-compressed XML) as a state
  machine over markup events.
- `src/classify.rs`: keyword matching of groups, file names and track names.
- `src/dedup.rs`: artifact filtering and de-duplication by path, name and
  size, and content hash.
- `src/rank.rs`: top-N selection per category.
- `src/discover.rs`, `src/copy.rs`, `src/readonly.rs`, `src/scan.rs`: the
  choices made around the file system: which folders are projects, where
  copies go, what lies inside a project, and the steps of a scan.
- `src/cancel.rs`, `src/error.rs`: cancellation and errors.
- `tests/`: tests of the library.
- `app/`: the shell (file system, parallel reading, JSON, progress) that
  runs a scan with the library.

Public proof functions state the library's laws, for example that a parent
category matches whatever its children match, that an occurrence joins the
sample at its path or else the sample of its name and size with the same
content (and otherwise becomes a new one), and that discovery keeps one
project per folder and none inside another.
