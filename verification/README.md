# md_knowsearch

A local search engine for a directory of Markdown and plain-text notes,
written in Verus: the library's behaviour is stated in `requires` / `ensures`
contracts and proved.

- `src/` — the verified library:
  - `ingest/` parses notes (title, headings, tags, sections), tokenizes text
    (ASCII words; runs of other characters as 2-, 3- and 4-grams) and decides which files and
    directories a scan visits;
  - `index/` builds the inverted index, writes documents to the JSON Lines
    cache and reads them back (with a small JSON reader);
  - `search/` turns query words into terms, finds the documents that hold
    them with their counters, picks the best section, cuts snippets and
    highlights terms;
  - `cli.rs`, `tui.rs`, `output.rs` read the command line and the lines typed
    in the interactive search, and write results as JSON.
- `app/` — the program around it: files, the terminal, and relevance scores,
  which are floating-point numbers.
- `tests/` — tests of the library.
