# alfanous_core

Quran search core for Arabic text, verified with Verus.

- `src/normalize.rs`: tashkeel/tatweel removal, letter folding, whitespace
  collapsing, definite-article stripping, prefix expansion. Normalizing for
  search is proved idempotent.
- `src/parser/`: the query language. `lexer.rs` tokenizes (Arabic operator
  words, phrases, boosts whose weight is checked against the floating-point
  literal syntax); `mod.rs` is the recursive-descent parser, specified as a
  grammar over tokens.
- `src/roots.rs`: Buckwalter transliteration and the root/lemma index read
  from the corpus JSON tables.
- `src/search.rs`: the FTS5 `MATCH` expression of a query tree and the SQL
  statement with its parameters.
- `src/db.rs`: the sura table and the `sura_id|aya_id|text` file format.
- `src/text.rs`: character helpers (Unicode whitespace, trimming, joining,
  decimal digits).
- `app/`: the command line, SQLite storage and query execution (rusqlite,
  clap). It reads `data/roots.json` and `data/lemmas.json` at start-up.
