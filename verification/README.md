# suggestions_processor

Ranks browser search suggestions against a query. The library under `src/`
is verified with Verus:

- `text` — character-sequence primitives (prefix, substring, trimming),
  the Unicode whitespace table, and the calls into std for alphanumeric
  characters and lowercasing.
- `url_utils` — query tokenisation, word-boundary title matching, and URL
  normalisation (`naked_string`, `host_without_www`, `is_root`) over
  `UrlParts`, the components that the `url` crate reads from a URL.
- `scoring` — the match hierarchy and the final score
  `(base << 10) + visit_count`, with the laws of the ranking.
- `processing`, `types` — the pipeline: score the local sources, sort,
  keep the best 100, merge duplicates by naked URL, pick up to 2 top hits,
  add the search-API suggestions, and apply the platform limits.
  `process` takes the raw input; `rank_suggestions` takes the lowered
  query, its words and the parsed sources, and does the rest.

`app/` holds the C interface: JSON in and out through `serde_json`, and the
C string handling.
