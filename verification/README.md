# sigocr

Layout analysis for text extracted from PDF pages, verified with Verus.

Characters reported by the PDF reader (positions in fixed-point units of
1/1024 point) are put in reading order, grouped into lines, then into
paragraphs with a role (`title`, `sectionHeading`, `pageHeader`,
`pageFooter`, `pageNumber`), a bounding box, and a span into the document
content in UTF-16 code units. A table detector finds columnar runs of lines.

- `src/` — the verified library: `reading_order`, `paragraphs`, `tables`,
  `chunk` (page ranges and their assembly into a document), `pdf` (the
  `pdf_oxide` calls and the embedded-text check), `content` and `text`
  (how text is appended and measured), `sort` (stable ordering), `bounds`
  and `laws` (properties of the library as a whole), `joining` (chunk and
  document contents as joined paragraph texts, spans kept by joining) and
  `partition` (extracting pages in chunks gives the document of one chunk).
- `app/` — the Node.js bindings: file reading, conversion of the reader's
  floating-point geometry, parallel extraction and the JavaScript objects.
- `tests/` — tests on concrete inputs.
