# jevr — verified core

`jevr` answers plain-language questions about a code base or a document
corpus with a ranked list of files and line ranges: a local BM25 pass for
recall, then TypeSafe Jev judgments for precision.

This crate holds the deterministic logic of that pipeline, specified and
proved with Verus:

- `text` — character classes, UTF-8 lengths, line splitting, trimming,
  decimal and hex rendering, lexicographic order.
- `bm25` — the code-aware tokenizer (camelCase / snake_case subtokens plus
  whole identifiers) and the integer statistics of the BM25 index
  (postings with term frequencies, document lengths).
- `expansion` — keyword variants and the stopword fallback.
- `candidates` — the sorted, deduplicated candidate union and the filtering
  of `git grep` output to walked files.
- `windows` — 100/20-line windows, UTF-8-safe byte chunking, and request
  batches under the 24-window / 24 KB envelope.
- `verify`, `jev` — the question sets of a request, the retry policy and the
  response-cache file names.
- `walk`, `output`, `pipeline` — file kinds and skip lists, the text of
  result lines and snippets, and the pure decisions of the command line.

`app/` is the command-line program around it: argument parsing, the file
walk, HTTP and the cache directory, floating-point scoring and ranking, and
rendering. `tests/` exercises the library on concrete values.
