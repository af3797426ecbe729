# kotoba

The terms of a full-text search engine, verified with Verus: from the tokens of a query to located
query terms, and from the values of a document to words with positions. Japanese gets special care.
Words are searched for by their kana reading and in Latin letters too, and terms whose boundaries
differ from those of the indexed words are segmented again.

## Layout

- `src/` is the verified library.
  - `text`, `plain`, `words`, `token`, `tokenizer`: texts, values, sets of words, tokens.
  - `japanese`: readings and the variants of a token.
  - `context`, `query_term`: what a search knows of the index, and the terms of a query.
  - `ordering`, `segmentation`: splitting a text into words of the index.
  - `resegmentation`, `candidates`, `phrase_variants`: terms and phrases that are segmented again.
  - `parse_query`: reading the tokens of a query; typos; n-grams; phrases.
  - `positions`, `field_terms`, `document`: the words of a document with their positions.
  - `lookup_laws`, `query_laws`, `resegmentation_laws`, `document_laws`: what holds of all of it.
- `tests/` runs the library with its real dependencies.
- `app/` drives the library with an index and with JSON documents.

## Questions

The library does no input or output. A function that needs an answer of the index, or on a field of
a document, returns the question as an error. Its caller answers it, adds the answer to what is
known, and calls the function again. A question that is asked is always one that was not answered
before, and a result does not change when more becomes known.
