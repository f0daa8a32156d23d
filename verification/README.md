# rsou

A full-text search program for a personal library of documents, written around a
library that is verified with Verus.

- `src/` is the library: the query language and its compilation to match
  expressions, the tokenizer, the division of documents into fragments, the search
  for literals and the grouping of results, dictionaries, the decisions of an
  import, paths, dates, upkeep of the index, and what the pages of the window show.
  Every function has a contract. What holds of several functions together stands in
  proof functions whose names start with `law_`.
- `tests/` runs the library on concrete values, with an index in memory where a
  search takes one.
- `app/` is the program around it: the index on disk (SQLite), files, the command
  line and the window.

Calls into other crates and into the standard library that are not verified stand
behind items marked `external_body`, `assume_specification` or
`external_type_specification`; the comment above each says what is taken for granted.
