# omalibre

A terminal ebook reader with a library, annotations, full-text search, a Markdown
export and an MCP server. The rules of the program are a library verified with
Verus; a thin program around it does the input and output.

## Layout

- `src/` is the verified library. Every function states what it returns or
  changes, and Verus proves it.
  - `text`, `sort`, `table`, `failure`: characters, stable sorting, maps by text,
    and error messages with their context.
  - `xml`, `paths`, `settings`, `identity`: parsed XML, paths inside a book and on
    disk, TOML values, and the hash that names a book.
  - `epub`: packages, tables of contents, chapter documents and formulas.
  - `doc`, `layout`, `search`: the blocks of a chapter, their lines on screen, and
    the matches of a search.
  - `annotation`, `journal`: highlights, and the event log that everything is
    folded out of.
  - `library`, `shelf`: the list of books, its order and filter, and the view of it.
  - `app`: the reader as a state machine. It asks for what has to be written and
    is told the outcome.
  - `image`: what a terminal can draw, and the Kitty and Sixel encodings.
  - `theme`, `ui`: colours, and what is painted where.
  - `export`, `find`, `mcp`, `session`: Markdown files, library-wide search, the
    answers of the MCP server, and the rest of what the program decides.
- `tests/` runs the library, with the crates it calls.
- `app/` is the program: command line, files, terminal, processes.

## What is proved

Contracts are stated over mathematical values: texts as sequences of characters,
books, journals and screens as their views. Properties that span several functions
are public proof functions, next to what they speak of: that a replay follows the
clock whatever file an event came from, that wrapping never drops text, that the
search reports every match once, that a refused write leaves the reader unchanged,
that an exported file leads back to its book, and others.

## What is trusted

The calls into other crates and the parts of the standard library that Verus does
not know: hashing, XML, TOML, JSON, zip, base64, character widths, dates, character
classes and case, the decoding of damaged text, and the parent of a path. Each
stands in a function of its own whose comment says what is claimed of it.
