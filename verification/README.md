# space_scanner

A terminal browser of disk usage: it lists a directory down to a chosen depth,
computes the size of each subdirectory in the background, and keeps the
listing ordered by size.

- `src/` is the verified library.
  - `entry.rs`: directory entries, their icons and size column (the size is
    written exactly as `format!("{:.2}", size as f64 / unit)` would write it,
    computed with integers).
  - `listing.rs`: how a listing is cut into groups (one per top-level entry)
    and what sorting the groups by size means, with the laws of that sort.
  - `scanner.rs`: the listing of one directory, its sort, size updates, and
    the decisions of a walk of the tree.
  - `app.rs`, `events.rs`: the browser state, key handling and screen text.
  - `sizes.rs`: the total size of a directory from what it holds, or why it
    is not known.
  - `paths.rs`: the two path operations taken from `std::path`, and the
    text that stands for a path.
  - `decimal.rs`: decimal notation and rounding.
- `app/` runs the terminal, walks the file system, and computes directory
  sizes on threads. It hands each entry that a walk finds to the library,
  which says whether to compute its size and whether to walk into it; it
  hands what a directory holds to the library, which adds it up. On Unix it
  hands the bytes of each path to `paths::encode_path` and gets them back
  from `paths::decode_path`; `paths::lemma_path_text_round_trip` proves that
  nothing is lost. Elsewhere paths are converted to text lossily.
- `tests/` holds the tests.
