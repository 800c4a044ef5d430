# mdview

A terminal reader for Markdown files whose core is verified with Verus.

**Markdown is not parsed yet.** The loader (`source::document_from_bytes`)
turns each non-blank line of the input into a plain paragraph: the reader
shows the source text, line by line, without headings, lists, tables, code
blocks or inline formatting recognised. Everything downstream of the loader
(layout, outline, search, selection, links, the look of each cell) works on
the semantic document model and handles those constructs when a document
holds them, as the tests show with documents built block by block.

- `src/` is the verified library: the semantic document model, terminal
  layout, the look of each cell, literal search with smart case, selection
  copy, heading slugs and link targets, the outline, the reading session's
  key-driven state machine, the command line's decisions, and the decision
  logic of the clipboard and browser adapters. Calls into
  `unicode-segmentation`, `unicode-width`, `unicode-casefold` and `syntect`
  stand behind small trusted wrappers whose contracts name what those
  crates compute.
- `app/` is the program around it: terminal setup and the event loop
  (`crossterm`), drawing (`ratatui`), file reading, the highlighting thread
  and the operating system's clipboard and browser commands. It performs the
  effects that the session requests and hands their outcomes back.
- `tests/` runs the library on concrete inputs.
