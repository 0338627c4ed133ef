# social_indexer

A small social-media indexer. Posts and users are stored in table files as
records of little-endian words and length-prefixed UTF-8 fields; a B-tree of
`i32` keys writes its nodes as records in the machine's byte order; Reddit
posts and users are normalised into the indexer's own posts and users.

- `src/` is the library, verified with Verus: the record format (`codec`,
  `post`, `user`, `db_driver`), the B-tree (`btree`), the normalisation rules
  (`reddit`) and the prompt's choices (`menu`). Each public function carries
  its contract; the `lemma_*` proof functions state the laws (records read
  back what was written, search finds exactly the keys of a search tree, and
  so on).
- `app/` is the interactive program: prompts, table files, the Reddit API and
  JSON output, calling the library for every decision.
- `tests/` runs the library on concrete values.
