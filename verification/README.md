# movie_search

The verified core of a small movie search service. A query's words are
looked up in inverted indexes over names and titles; each hit adds a
per-field weight to the documents (titles) it lists; the results of all
words are combined and the best ten are returned with the fields they
matched in.

- `src/results.rs`: result sets (`Scores`), adding index records, combining
  result sets, ranking; the laws of combination.
- `src/ranking.rs`: stable descending selection of the best `k` entries.
- `src/offsets.rs`: tables of where each record of a line-delimited file lies.
- `src/indexdata.rs`: the term index, the title table and its rows.
- `src/idindexdata.rs`: the people index and title metadata.
- `src/query.rs`, `src/text.rs`: query terms, case folding, tab-separated fields.
- `app/`: the web service: file reading, JSON and CSV parsing, rating
  scores (floating point) and the HTTP handlers.
