# bookmark_bridge

Conversion between the Netscape Bookmark HTML format that browsers export
and `bkj`, a one-JSON-object-per-line format, written in Verus: every
function of the library is proved against a specification over character
sequences.

Layout:

- `src/lib.rs` — `Bookmark` and its model `BookmarkView`.
- `src/text.rs` — searching, ASCII case folding, whitespace trimming and line
  splitting on `char` sequences, as `str` does them.
- `src/html.rs` — HTML character references, with the proof that unescaping
  undoes escaping.
- `src/int_text.rs` — decimal text of `i64` values, read and written.
- `src/json.rs`, `src/json_laws.rs` — JSON strings and flat arrays of strings,
  the top-level splitting of objects and arrays, and what reading gives back
  of what was written.
- `src/json_scan.rs` — the top-level scans stated directly: the first colon
  outside strings, and the parts between separators joining back to the text.
- `src/bkj.rs` — `write_bkj` and `parse_bkj`, with the proof that reading a
  written document gives the bookmarks back and that documents concatenate.
- `src/netscape.rs`, `src/netscape_laws.rs` — `write_netscape` (bookmarks
  grouped into a folder tree) and `parse_netscape`, with the proofs that
  reading a written file gives the bookmarks back in the tree's order, that
  every bookmark appears once, that a folder path gives one folder, and that
  bookmarks of one folder keep their input order.
- `src/netscape_tree.rs` — the folder tree: no empty folder, each level in
  order of first use, the bookmarks under a folder standing together, and
  grouped input written (and read back) in input order.
- `src/netscape_lines.rs`, `src/netscape_shape.rs` — the lines of a written
  file (their kinds, counts and indentation) and how much reading a file can
  find.
- `app/main.rs` — the command-line program:
  `bookmark-bridge <from:netscape|bkj> <to:netscape|bkj> <input-file> [output-file]`.
- `tests/` — the scenarios and edge cases, run against the compiled library.
