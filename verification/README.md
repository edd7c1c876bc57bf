# Context Brain

A context manager for coding assistants that speak the Model Context Protocol. It reads
source files in summaries instead of in full, searches a project by name, path and meaning,
keeps memories across sessions, and watches files for changes. Everything stays on the
machine: the index and the memories live in one SQLite database per project.

## Layout

- `src/` is the library, verified by Verus. Believed without proof are what `indexer::syntax`
  says of the syntax tree parser, and what `text` says of four functions of the standard
  library.
  - `text`, `width`, `numerals`, `path`, `sort`, `float32`, `hash`, `collections`: the
    ground that the rest stands on.
  - `context`: token estimates, scoring constants, relevance and summaries.
  - `indexer`: which files count, their symbols (by syntax trees) and imports, what is to be
    indexed, and what a file event means.
  - `turboquant`: quantized vectors.
  - `db`: the blobs and migrations of the database.
  - `memory`: saving without duplicates, recall, and review of contradictions.
  - `tools`, `server`, `telemetry`: the tools, their parameters and what is recorded of them.
- `app/` is the program: the command line, the server, the database, the file system, the
  embedding model, and arithmetic on floating-point numbers.
- `tests/` runs the library on concrete values.

## Numbers

The library holds scores, similarities and the numbers of vectors as the bit patterns of
32-bit floating-point numbers. It compares and sorts them (`float32`); `app/` computes them.

## Laws

Functions named `law_…` state what holds of several functions together, for example that a
quantized vector survives its blob, that a second run over unchanged files indexes nothing,
that a near-duplicate memory is merged or linked, or that search results keep to their token
budget.
