# plannotator

The document and diff model of a terminal tool for annotating plans and patches, as a
Verus-verified library.

- `src/doc.rs`: blocks with byte ranges; unified-diff splitting (file headers and hunks,
  hunk bodies consumed by their counted lines); document well-formedness.
- `src/markdown.rs`: top-level Markdown blocks from the `pulldown-cmark` event stream.
- `src/hunk.rs`: `@@ -a,b +c,d @@` headers.
- `src/linediff.rs`: line diffs from `similar`.
- `src/overlay.rs`: the overlay between a baseline and the current file, the whole-file
  diff, and the region verbs (accept, revert, un-accept).
- `src/source.rs`: document sources and their git blob versions.
- `src/review.rs`, `src/screen.rs`: the session's decisions and scroll arithmetic.
- `app/main.rs`: a headless command line that does the file I/O around the library.
