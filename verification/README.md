# Verified full-text index

A small full-text index — term buffers, postings lists with delta and cumulative
coders, a prefix trie dictionary, cursors that merge and intersect postings, and a
BK-tree for terms within an edit distance — written in Verus, with the functions of the
library proved against their contracts (only a call of std's `String::push` is taken on
trust).

Layout:

- `src/` — the library (crate `lib`):
  - `types`, `util`, `header`, `meta`: identifiers, little-endian encodings, the
    stored node header and index metadata, each with a round-trip lemma;
  - `sequence`, `coders`, `seq_merge`, `slider`: streams of document ids, the delta,
    cumulative and position-shift coders, the merge of sorted streams;
  - `postings`, `sorted`, `merge`, `merge_all`, `intersect`: postings cursors and
    what they hand out;
  - `plain_merge`: merging lists given with term frequencies, and why a merge is again
    a list in plain form;
  - `termbuf`, `indexing`: splitting a document line into its fields, and the
    per-term buffers filled while documents are read;
  - `stored_postings`, `trie`, `trie_read`, `term_order`, `search`: writing the
    dictionary and postings, looking terms up (every term written is found again, with
    the postings written for it), and answering queries;
  - `bktree`: Levenshtein distance and the BK-tree search.
- `tests/` — executable tests of the library.
- `app/` — the command-line program: reads the input file and writes the index files,
  or, run under a name ending in `search`, answers a query from an index directory.
