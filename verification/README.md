# rag_search

A small retrieval service (full-text plus vector search over stored text
chunks) and its terminal chat client.

- `src/` is the verified library: UTF-8 text hashing for deduplication,
  whitespace splitting and line splitting, document chunking, text cleaning
  (lowercasing, English stop words, Snowball stemming), full-text query
  building, insert planning, the integer part of reciprocal-rank fusion,
  result assembly, and the chat client's key handling.
- `app/` holds the programs: the HTTP server with its SQLite, vector-index
  and embedding stores (default), and the terminal client (`tui` argument).
- `tests/` exercises the library on concrete values.
