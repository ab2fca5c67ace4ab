# treehouse

The core of a static site generator for outlines written in the `.tree` format, with its
behaviour stated in contracts and proved with Verus.

## Layout

- `src/` is the verified library:
  - `pull`, `ast`, `error`: the `.tree` parser, from bytes to branch events and trees;
  - `tree_html`, `incubator`: plain HTML of parsed trees;
  - `sema`: analysis of parsed trees (attributes, ids, diagnostics) into the compilation context;
  - `fix`, `fix_order`: the fixes that give every branch an id, and the proof that they apply;
  - `branch_markup`, `mini_template`, `markdown`, `djot`, `highlight`, `code_block`, `escape`:
    rendering the text of branches;
  - `branch_html`, `breadcrumbs`, `navmap`, `generate`, `import_map`, `static_urls`: the pages
    of the site and what they link to;
  - `serve`, `progress`, `hamster`, `maze`, `seasons`: the decisions of the server and of the
    radio puzzles;
  - `config`, `name_map`, `text`, `wc`: configuration, small maps and text helpers.
- `tests/` holds the tests of the library.
- `app/` is the command-line program around it: argument parsing, reading and writing files,
  the Handlebars templates, the HTTP server and its WebSocket and event streams.
