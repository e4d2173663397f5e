# opencodesearchparser

Splits source files into top-level code segments with Tree-sitter, and splits
text into overlapping chunks with a recursive character splitter. The library
is written in Verus: its functions carry contracts that Verus proves.

## Layout

- `src/lib.rs`: `CodeLanguage`, `ParseError`, `parse_str` (Tree-sitter parse,
  then segment selection), `segments_from_nodes` and `collect_segments`
  (segments of given top-level nodes), `get_file_extension`.
- `src/segments.rs`: which top-level nodes become segments (per language), the
  byte ranges of the segments, and their texts; the laws that every segment is
  a non-blank piece of the source, and that segments of nodes in source order
  are disjoint and in source order.
- `src/recursive_character_text_splitter.rs`: `RecursiveCharacterTextSplitter`
  and the mathematical model of its chunking (`split_chunks`).
- `src/chunk_laws.rs`: no chunk is blank; no chunks exactly for blank text;
  when the separators reach single characters, every chunk fits in the chunk
  size or is a single (wide) character.
- `src/chunk_order.rs`: chunks come from the text in order.
- `src/chunk_cover.rs`: no character that is not whitespace is lost, and
  with no overlap none is repeated.
- `src/chunk_windows.rs`: for a text of one-byte characters none of which is
  whitespace, split into single characters, the chunks are windows of the
  chunk size that overlap by the chunk overlap.
- `src/files.rs`: the files of a directory walk that a language parses, and
  the joining of their segments.
- `src/text.rs`: the character-level text model (UTF-8 byte lengths,
  whitespace, search).
- `src/syntax.rs`, `src/threads.rs`: the calls into tree-sitter and rayon;
  the top-level nodes that each grammar parses from a source are named there.
- `app/lib.rs`: `parse_file` and `parse_dir`, which read files and walk
  directories and hand the text to the library.
