# h2md

HTML to Markdown conversion, verified with Verus.

HTML is parsed with html5ever into a tree of `HtmlNode`s, and the tree is
walked to write Markdown: headings, paragraphs, emphasis, code spans, links
and images, nested lists, blockquotes, fenced code blocks, tables and rules.
A compressed mode writes unpadded tables, tight lists and single-line inline
content.

## Layout

- `src/chars.rs`: character helpers (whitespace classes, decimal digits,
  `u32` parsing, UTF-8 encoding).
- `src/text.rs`: text transformations: whitespace collapsing, Markdown
  escaping, backtick runs, table cells, link destinations.
- `src/tree.rs`: the document tree and its height.
- `src/html.rs`: parsing with html5ever into the tree. html5ever builds
  its document through a `TreeSink`; the crate uses html5ever's reference
  sink, `markup5ever_rcdom`, and copies its `RcDom` into `HtmlNode`s.
- `src/state.rs`: the converter state, the output model (capture buffers,
  newline runs, held-back newlines in compressed mode) and its invariants.
- `src/tags.rs`: which rendering each element name selects.
- `src/table.rs`: table layout (column widths through unicode-width).
- `src/render_spec.rs`: the conversion as spec functions.
- `src/render.rs`: the executable walk, proved equal to the spec.
- `src/blank.rs`: the blank-line law: a document without preformatted
  blocks, code spans or attribute values holding newlines converts to text
  with no three newlines in a row.
- `src/lib.rs`: `convert`, `convert_with`, `convert_document`, `Options`,
  `Error`.
- `app/`: the command-line program (file and stdin input, output file).

Each executable function's contract states its result over the spec model.
`convert` and `convert_with` state their whole output as `markdown(html, compressed)`:
the conversion of the document html5ever parses from the input, cut below the
depth limit (any two such cuts are the same tree and convert alike). Proof
functions state properties such as: a finished output ends with a newline (in
compressed mode, without blank padding at either end); each emitted run of
newlines is capped so that the counted run at the end of the output stays
within one blank line, and a whole document without preformatted blocks or
code spans never has more than one blank line in a row; a capture buffer holds exactly what was written into
it and leaving it restores the state; collapsing whitespace is idempotent;
code span delimiters never occur in the span's
content; collapsed inline content and table cells stay on one line; text
escapes every Markdown-significant character; stripped elements write
nothing; padded table cells fill their column.
