# EPUBTR

A desktop application that has EPUB books translated by DeepSeek, OpenAI or
Gemini, with a library whose decisions are verified with Verus.

- `src/` is the verified library. It reads the reading order of a book, cuts
  pages into blocks and text nodes into sentences, plans the requests, reads and
  judges the answers, decides about retries, smaller blocks and fallbacks, and
  puts pages and books together again. Every decision has a contract; public
  proof functions whose names begin with `law_` state what holds across them:
  that nothing of a page is lost, that markup stays, that chapters come out
  complete and in order, that every run ends.
- `app/` is the application around it: archives, HTTP, threads, the window.
- `tests/` holds the library's tests.

The library calls `serde_json` for parsing answers and `quick-xml` for reading
the container and package documents. Those calls, and three of the standard
library that Verus has no specification for, stand in small functions marked
`#[verifier::external_body]` (one in an `assume_specification`), each with a
comment that says what is believed of it.

## Settings

`EPUBTR_MAX_CONCURRENCY`, `EPUBTR_FULL_BLOCK_MIN_CHARS`,
`EPUBTR_FULL_BLOCK_TARGET_CHARS`, `EPUBTR_FULL_BLOCK_MAX_CHARS` and
`EPUBTR_MAX_OUTPUT_TOKENS`, read from the environment.
