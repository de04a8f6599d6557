# markdown_studio

The document logic of Markdown Studio, a desktop workspace that turns
Markdown files into one PDF, DOCX, HTML or Markdown document, verified with
Verus.

- `src/` is the verified library: how imported files are named and ordered,
  how Markdown is read into plain lines and headings (through
  `pulldown_cmark`), line wrapping, the escaping rules of HTML, XML and PDF,
  the header and footer templates, and byte-exact writers for PDF, DOCX
  (a stored ZIP package) and HTML. Each public function's contract states
  its result exactly, over spec functions; the laws (`law_*` proof
  functions) state what holds across inputs, such as that wrapping keeps
  every word, that the PDF cross-reference table points at its objects, and
  that the natural order of files is unique.
- `tests/` runs the library on concrete values.
- `app/` is the Tauri shell: commands, file and SQLite I/O, the
  serialisable copies of the library's types, and the layout numbers that
  come from floating-point settings.
